//! The value model: members, forms, and whole programs.

use std::collections::VecDeque;
use vstd::prelude::*;

verus! {

/// The mathematical model of a member: a value, or a piece of syntax that
/// has not been evaluated yet.
pub enum Term {
    /// A name that stands for a variable or a function.
    Ident(Seq<char>),
    /// A nested form that has not been evaluated.
    SExpr(Seq<Term>),
    /// A text.
    Str(Seq<char>),
    /// A 32-bit signed integer.
    NumI(i32),
    /// No value.
    Unit,
}

impl Term {
    /// A term is resolved when it is a final value: a text, a number or the
    /// unit. A name and a nested form are deferred.
    pub open spec fn is_resolved(self) -> bool {
        self is Str || self is NumI || self is Unit
    }
}

/// A name, as a slice of the program text.
pub type Ident<'a> = &'a str;

/// A runtime value or a fragment of syntax that has not been evaluated.
#[derive(Debug, PartialEq)]
pub enum Member<'a> {
    Ident(Ident<'a>),
    SExpr(SExpr<'a>),
    String(String),
    NumI(i32),
    Unit,
}

/// One parenthesized form: its members in order.
#[derive(Debug, PartialEq)]
pub struct SExpr<'a> {
    pub members: VecDeque<Member<'a>>,
}

/// A program: its top-level forms in order.
#[derive(Debug, PartialEq)]
pub struct AST<'a> {
    pub prog: Vec<SExpr<'a>>,
}

/// The term that a member stands for.
pub open spec fn term_of<'a>(member: Member<'a>) -> Term
    decreases member,
{
    match member {
        Member::Ident(name) => Term::Ident(name@),
        Member::SExpr(form) => Term::SExpr(
            Seq::new(
                form.members@.len(),
                |i: int|
                    if 0 <= i < form.members@.len() {
                        term_of(form.members@[i])
                    } else {
                        Term::Unit
                    },
            ),
        ),
        Member::String(text) => Term::Str(text@),
        Member::NumI(n) => Term::NumI(n),
        Member::Unit => Term::Unit,
    }
}

/// The terms that a sequence of members stands for, in order.
pub open spec fn terms_of<'a>(members: Seq<Member<'a>>) -> Seq<Term> {
    Seq::new(members.len(), |i: int| term_of(members[i]))
}

/// The texts of a sequence of names, in order.
pub open spec fn texts_of<'a>(names: Seq<Ident<'a>>) -> Seq<Seq<char>> {
    Seq::new(names.len(), |i: int| names[i]@)
}

/// Whether every term of `items` is a name.
pub open spec fn all_idents(items: Seq<Term>) -> bool {
    forall|i: int| 0 <= i < items.len() ==> #[trigger] items[i] is Ident
}

/// The names that `items` holds, for `items` made of names only.
pub open spec fn ident_names(items: Seq<Term>) -> Seq<Seq<char>> {
    Seq::new(items.len(), |i: int| items[i]->Ident_0)
}

impl<'a> View for Member<'a> {
    type V = Term;

    open spec fn view(&self) -> Term {
        term_of(*self)
    }
}

impl<'a> View for SExpr<'a> {
    type V = Seq<Term>;

    open spec fn view(&self) -> Seq<Term> {
        terms_of(self.members@)
    }
}

impl<'a> View for AST<'a> {
    type V = Seq<Seq<Term>>;

    open spec fn view(&self) -> Seq<Seq<Term>> {
        Seq::new(self.prog@.len(), |i: int| self.prog@[i]@)
    }
}

/// A member that holds a form stands for the nested term of that form.
pub proof fn lemma_term_of_form<'a>(form: SExpr<'a>)
    ensures
        term_of(Member::SExpr(form)) == Term::SExpr(form@),
{
    assert(term_of(Member::SExpr(form))->SExpr_0 =~= form@);
}

impl<'a> Clone for Member<'a> {
    #[verifier::loop_isolation(false)]
    fn clone(&self) -> (copy: Self)
        ensures
            copy@ == self@,
        decreases self,
    {
        match self {
            Member::Ident(name) => Member::Ident(name),
            Member::SExpr(form) => {
                let mut members: VecDeque<Member<'a>> = VecDeque::new();
                let mut i: usize = 0;
                while i < form.members.len()
                    invariant
                        i <= form.members.len(),
                        members@.len() == i,
                        forall|k: int| 0 <= k < i ==> term_of(members@[k]) == term_of(form.members@[k]),
                    decreases form.members.len() - i,
                {
                    let item = form.members[i].clone();
                    members.push_back(item);
                    i += 1;
                }
                let copy = Member::SExpr(SExpr { members });
                assert(copy@->SExpr_0 =~= self@->SExpr_0);
                copy
            },
            Member::String(text) => Member::String(text.clone()),
            Member::NumI(n) => Member::NumI(*n),
            Member::Unit => Member::Unit,
        }
    }
}

impl<'a> Clone for SExpr<'a> {
    fn clone(&self) -> (copy: Self)
        ensures
            copy@ == self@,
    {
        let mut members: VecDeque<Member<'a>> = VecDeque::new();
        let mut i: usize = 0;
        while i < self.members.len()
            invariant
                i <= self.members.len(),
                members@.len() == i,
                forall|k: int| 0 <= k < i ==> term_of(members@[k]) == term_of(self.members@[k]),
            decreases self.members.len() - i,
        {
            let item = self.members[i].clone();
            members.push_back(item);
            i += 1;
        }
        let copy = SExpr { members };
        assert(copy@ =~= self@);
        copy
    }
}

impl<'a> Member<'a> {
    /// Whether the member is a final value.
    pub fn is_resolved(&self) -> (resolved: bool)
        ensures
            resolved == self@.is_resolved(),
    {
        match self {
            Member::Ident(_) => false,
            Member::SExpr(_) => false,
            _ => true,
        }
    }

    /// The name, if the member is a name.
    pub fn as_ident(self) -> (name: Option<Ident<'a>>)
        ensures
            (name is Some) == (self@ is Ident),
            name is Some ==> name->0@ == self@->Ident_0,
    {
        match self {
            Member::Ident(name) => Some(name),
            _ => None,
        }
    }

    /// The names in order, if the member is a form made of names only.
    pub fn as_ident_list(self) -> (names: Option<Vec<Ident<'a>>>)
        ensures
            (names is Some) == (self@ is SExpr && all_idents(self@->SExpr_0)),
            names is Some ==> texts_of(names->0@) == ident_names(self@->SExpr_0),
    {
        match self {
            Member::SExpr(form) => {
                let mut names: Vec<Ident<'a>> = Vec::new();
                let mut i: usize = 0;
                proof {
                    lemma_term_of_form(form);
                }
                while i < form.members.len()
                    invariant
                        i <= form.members.len(),
                        names@.len() == i,
                        self@ == Term::SExpr(form@),
                        forall|k: int| 0 <= k < i ==> #[trigger] form@[k] == Term::Ident(names@[k]@),
                    decreases form.members.len() - i,
                {
                    match &form.members[i] {
                        Member::Ident(name) => {
                            names.push(*name);
                        },
                        _ => {
                            assert(!(form@[i as int] is Ident));
                            return None;
                        },
                    }
                    i += 1;
                }
                assert(texts_of(names@) =~= ident_names(form@));
                Some(names)
            },
            _ => None,
        }
    }

    /// The form, if the member is a nested form.
    pub fn as_sexpr(self) -> (form: Option<SExpr<'a>>)
        ensures
            (form is Some) == (self@ is SExpr),
            form is Some ==> form->0@ == self@->SExpr_0,
    {
        match self {
            Member::SExpr(form) => {
                proof {
                    lemma_term_of_form(form);
                }
                Some(form)
            },
            _ => None,
        }
    }
}

impl<'a> SExpr<'a> {
    /// The form that holds `members`, in the same order.
    pub fn new(members: Vec<Member<'a>>) -> (form: Self)
        ensures
            form@ == terms_of(members@),
    {
        let mut rest = members;
        let mut deque: VecDeque<Member<'a>> = VecDeque::new();
        while rest.len() > 0
            invariant
                rest@ + deque@ == members@,
            decreases rest.len(),
        {
            let ghost before = rest@;
            let last = rest.pop().unwrap();
            deque.push_front(last);
            assert(rest@ + deque@ =~= before + deque@.skip(1));
        }
        assert(deque@ =~= members@);
        SExpr { members: deque }
    }
}

} // verus!
