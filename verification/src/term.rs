//! A small term language: variables, abstractions and applications.
//!
//! A term holds its subterms as handles, so its shape names them by their
//! identifiers: comparing or hashing a term never walks into a subterm.

use crate::consign::HConsign;
use crate::handle::HConsed;
use crate::hash::fold_text;
use crate::hash::hash_str;
use crate::hash::mix;
use crate::hash::spec_mix;
use crate::hash::str_eq;
use crate::hash::HASH_SEED;
use crate::record::ConsignView;
use crate::shape::Candidate;
use crate::shape::HConsable;
use crate::shape::HashIntern;
use vstd::prelude::*;
use vstd::string::StringExecFns;

verus! {

/// A term whose variables are named by an `S`.
#[derive(Hash, PartialEq, Eq, Debug)]
pub enum ActualTerm<S> {
    /// A variable.
    Var(S),
    /// An abstraction over a term.
    Lam(HConsed<ActualTerm<String>>),
    /// An application of a term to a term.
    App(HConsed<ActualTerm<String>>, HConsed<ActualTerm<String>>),
}

impl<S: Clone> Clone for ActualTerm<S> {
    /// A term of the same kind, with a clone of the name or with the same
    /// subterms.
    fn clone(&self) -> (r: Self)
        ensures
            match (*self, r) {
                (ActualTerm::Var(name), ActualTerm::Var(copy)) => cloned::<S>(name, copy),
                (ActualTerm::Lam(t), ActualTerm::Lam(s)) => s == t,
                (ActualTerm::App(u, v), ActualTerm::App(s, t)) => s == u && t == v,
                _ => false,
            },
    {
        match self {
            ActualTerm::Var(name) => ActualTerm::Var(name.clone()),
            ActualTerm::Lam(t) => ActualTerm::Lam(t.clone()),
            ActualTerm::App(u, v) => ActualTerm::App(u.clone(), v.clone()),
        }
    }
}

/// A hash-consed term.
pub type HTerm = HConsed<ActualTerm<String>>;

/// The shape of a term: a variable's name, or the identifiers of the subterms.
pub enum TermShape {
    /// A variable of this name.
    Var(Seq<char>),
    /// An abstraction over the term with this identifier.
    Lam(u64),
    /// An application of the term with the first identifier to the term with
    /// the second.
    App(u64, u64),
}

/// What a table keeps of a term: the shape, with the name as a string.
pub enum TermKey {
    /// A variable of this name.
    Var(String),
    /// An abstraction over the term with this identifier.
    Lam(u64),
    /// An application of the term with the first identifier to the term with
    /// the second.
    App(u64, u64),
}

impl View for TermKey {
    type V = TermShape;

    open spec fn view(&self) -> TermShape {
        match self {
            TermKey::Var(name) => TermShape::Var(name@),
            TermKey::Lam(t) => TermShape::Lam(*t),
            TermKey::App(u, v) => TermShape::App(*u, *v),
        }
    }
}

/// The hash of a shape: the kind is mixed into the seed first, then the name
/// or the identifiers.
pub open spec fn shape_hash_spec(shape: TermShape) -> u64 {
    match shape {
        TermShape::Var(name) => fold_text(spec_mix(HASH_SEED, 0), name),
        TermShape::Lam(t) => spec_mix(spec_mix(HASH_SEED, 1), t),
        TermShape::App(u, v) => spec_mix(spec_mix(spec_mix(HASH_SEED, 2), u), v),
    }
}

impl View for ActualTerm<String> {
    type V = TermShape;

    open spec fn view(&self) -> TermShape {
        match self {
            ActualTerm::Var(name) => TermShape::Var(name@),
            ActualTerm::Lam(t) => TermShape::Lam(t.uid()),
            ActualTerm::App(u, v) => TermShape::App(u.uid(), v.uid()),
        }
    }
}

impl<'a> View for ActualTerm<&'a str> {
    type V = TermShape;

    open spec fn view(&self) -> TermShape {
        match self {
            ActualTerm::Var(name) => TermShape::Var(name@),
            ActualTerm::Lam(t) => TermShape::Lam(t.uid()),
            ActualTerm::App(u, v) => TermShape::App(u.uid(), v.uid()),
        }
    }
}

/// Hashes the shape of a variable.
fn hash_var(name: &str) -> (h: u64)
    ensures
        h == shape_hash_spec(TermShape::Var(name@)),
{
    hash_str(mix(HASH_SEED, 0), name)
}

/// Hashes the shape of an abstraction.
fn hash_lam(t: u64) -> (h: u64)
    ensures
        h == shape_hash_spec(TermShape::Lam(t)),
{
    mix(mix(HASH_SEED, 1), t)
}

/// Hashes the shape of an application.
fn hash_app(u: u64, v: u64) -> (h: u64)
    ensures
        h == shape_hash_spec(TermShape::App(u, v)),
{
    mix(mix(mix(HASH_SEED, 2), u), v)
}

/// Whether the key is that of the variable of this name.
fn key_is_var(key: &TermKey, name: &str) -> (b: bool)
    ensures
        b == (key@ == TermShape::Var(name@)),
{
    match key {
        TermKey::Var(kept) => str_eq(kept.as_str(), name),
        _ => false,
    }
}

/// Whether the key is that of the abstraction over this term.
fn key_is_lam(key: &TermKey, t: u64) -> (b: bool)
    ensures
        b == (key@ == TermShape::Lam(t)),
{
    match key {
        TermKey::Lam(kept) => *kept == t,
        _ => false,
    }
}

/// Whether the key is that of the application of these terms.
fn key_is_app(key: &TermKey, u: u64, v: u64) -> (b: bool)
    ensures
        b == (key@ == TermShape::App(u, v)),
{
    match key {
        TermKey::App(fun, arg) => *fun == u && *arg == v,
        _ => false,
    }
}

impl HConsable for ActualTerm<String> {
    type Key = TermKey;

    open spec fn hash_spec(shape: TermShape) -> u64 {
        shape_hash_spec(shape)
    }

    fn shape_hash(&self) -> (h: u64) {
        match self {
            ActualTerm::Var(name) => hash_var(name.as_str()),
            ActualTerm::Lam(t) => hash_lam(t.uid()),
            ActualTerm::App(u, v) => hash_app(u.uid(), v.uid()),
        }
    }

    fn key(&self) -> (k: TermKey) {
        match self {
            ActualTerm::Var(name) => TermKey::Var(name.clone()),
            ActualTerm::Lam(t) => TermKey::Lam(t.uid()),
            ActualTerm::App(u, v) => TermKey::App(u.uid(), v.uid()),
        }
    }

    fn has_key(&self, key: &TermKey) -> (b: bool) {
        match self {
            ActualTerm::Var(name) => key_is_var(key, name.as_str()),
            ActualTerm::Lam(t) => key_is_lam(key, t.uid()),
            ActualTerm::App(u, v) => key_is_app(key, u.uid(), v.uid()),
        }
    }
}

/// A term over borrowed names can be asked for in a table of terms over owned
/// names: a variable is looked up by a string slice.
impl<'a> Candidate<ActualTerm<String>> for ActualTerm<&'a str> {
    open spec fn shape(&self) -> TermShape {
        self@
    }

    fn lookup_hash(&self) -> (h: u64) {
        match self {
            ActualTerm::Var(name) => hash_var(name),
            ActualTerm::Lam(t) => hash_lam(t.uid()),
            ActualTerm::App(u, v) => hash_app(u.uid(), v.uid()),
        }
    }

    fn matches(&self, key: &TermKey) -> (b: bool) {
        match self {
            ActualTerm::Var(name) => key_is_var(key, name),
            ActualTerm::Lam(t) => key_is_lam(key, t.uid()),
            ActualTerm::App(u, v) => key_is_app(key, u.uid(), v.uid()),
        }
    }
}

/// A term over borrowed names stands in for the term over owned names: the
/// name of a variable is only copied when the variable is new.
impl<'a> HashIntern<ActualTerm<String>> for ActualTerm<&'a str> {
    fn intern(&self) -> (t: ActualTerm<String>) {
        match self {
            ActualTerm::Var(name) => ActualTerm::Var(String::from_str(name)),
            ActualTerm::Lam(t) => ActualTerm::Lam(t.clone()),
            ActualTerm::App(u, v) => ActualTerm::App(u.clone(), v.clone()),
        }
    }
}

/// A variable in writing: the letter `v`, then the name.
pub open spec fn var_text(name: Seq<char>) -> Seq<char> {
    seq!['v'] + name
}

/// An abstraction in writing: its body in round brackets.
pub open spec fn lam_text(body: Seq<char>) -> Seq<char> {
    seq!['('] + body + seq![')']
}

/// An application in writing: the two terms with a dot between them.
pub open spec fn app_text(fun: Seq<char>, arg: Seq<char>) -> Seq<char> {
    fun + seq!['.'] + arg
}

/// Writes a variable.
fn write_var(name: &str) -> (s: String)
    ensures
        s@ == var_text(name@),
{
    proof {
        reveal_strlit("v");
    }
    let mut s = String::from_str("v");
    s.append(name);
    proof {
        assert("v"@ =~= seq!['v']);
    }
    s
}

/// Writes an abstraction around its body.
fn write_lam(body: String) -> (s: String)
    ensures
        s@ == lam_text(body@),
{
    proof {
        reveal_strlit("(");
        reveal_strlit(")");
    }
    let mut s = String::from_str("(");
    s.append(body.as_str());
    s.append(")");
    proof {
        assert("("@ =~= seq!['(']);
        assert(")"@ =~= seq![')']);
    }
    s
}

/// Writes an application from its two terms.
fn write_app(fun: String, arg: String) -> (s: String)
    ensures
        s@ == app_text(fun@, arg@),
{
    proof {
        reveal_strlit(".");
    }
    let mut s = fun;
    s.append(".");
    s.append(arg.as_str());
    proof {
        assert("."@ =~= seq!['.']);
    }
    s
}

impl ActualTerm<String> {
    /// The term in writing, subterms and all.
    pub open spec fn text(&self) -> Seq<char>
        decreases self,
    {
        match self {
            ActualTerm::Var(name) => var_text(name@),
            ActualTerm::Lam(t) => {
                proof {
                    t.lemma_value_is_smaller();
                }
                lam_text(t.get().text())
            },
            ActualTerm::App(u, v) => {
                proof {
                    u.lemma_value_is_smaller();
                    v.lemma_value_is_smaller();
                }
                app_text(u.get().text(), v.get().text())
            },
        }
    }

    /// Writes the term.
    pub fn to_text(&self) -> (s: String)
        ensures
            s@ == self.text(),
        decreases self,
    {
        match self {
            ActualTerm::Var(name) => write_var(name.as_str()),
            ActualTerm::Lam(t) => {
                proof {
                    t.lemma_value_is_smaller();
                }
                write_lam(t.get().to_text())
            },
            ActualTerm::App(u, v) => {
                proof {
                    u.lemma_value_is_smaller();
                    v.lemma_value_is_smaller();
                }
                write_app(u.get().to_text(), v.get().to_text())
            },
        }
    }
}

impl<'a> ActualTerm<&'a str> {
    /// The term in writing, subterms and all.
    pub open spec fn text(&self) -> Seq<char> {
        match self {
            ActualTerm::Var(name) => var_text(name@),
            ActualTerm::Lam(t) => lam_text(t.get().text()),
            ActualTerm::App(u, v) => app_text(u.get().text(), v.get().text()),
        }
    }

    /// Writes the term.
    pub fn to_text(&self) -> (s: String)
        ensures
            s@ == self.text(),
    {
        match self {
            ActualTerm::Var(name) => write_var(name),
            ActualTerm::Lam(t) => write_lam(t.get().to_text()),
            ActualTerm::App(u, v) => write_app(u.get().to_text(), v.get().to_text()),
        }
    }
}

/// The factory: a table of terms makes variables, abstractions and
/// applications.
impl HConsign<ActualTerm<String>> {
    /// The variable of this name. The name is only copied if the variable is
    /// new.
    pub fn var(&mut self, name: &str) -> (t: HTerm)
        requires
            old(self).wf(),
            old(self)@.next < u64::MAX,
        ensures
            final(self).wf(),
            t.get()@ == TermShape::Var(name@),
            old(self)@.interns(TermShape::Var(name@), t.uid(), final(self)@),
            old(self).spares(TermShape::Var(name@), final(self)),
    {
        let candidate: ActualTerm<&str> = ActualTerm::Var(name);
        self.mk_interned(&candidate)
    }

    /// The abstraction over a term.
    pub fn lam(&mut self, t: HTerm) -> (r: HTerm)
        requires
            old(self).wf(),
            old(self)@.next < u64::MAX,
        ensures
            final(self).wf(),
            r.get()@ == TermShape::Lam(t.uid()),
            old(self)@.interns(TermShape::Lam(t.uid()), r.uid(), final(self)@),
            old(self).spares(TermShape::Lam(t.uid()), final(self)),
    {
        self.mk(ActualTerm::Lam(t))
    }

    /// The application of a term to a term.
    pub fn app(&mut self, u: HTerm, v: HTerm) -> (r: HTerm)
        requires
            old(self).wf(),
            old(self)@.next < u64::MAX,
        ensures
            final(self).wf(),
            r.get()@ == TermShape::App(u.uid(), v.uid()),
            old(self)@.interns(TermShape::App(u.uid(), v.uid()), r.uid(), final(self)@),
            old(self).spares(TermShape::App(u.uid(), v.uid()), final(self)),
    {
        self.mk(ActualTerm::App(u, v))
    }
}

/// Subterms that are on record in one table and structurally equal make
/// compounds of one shape, wherever the subterm handles came from.
pub proof fn lemma_equal_children_equal_shape(
    table: &HConsign<ActualTerm<String>>,
    u: HTerm,
    v: HTerm,
    u2: HTerm,
    v2: HTerm,
)
    requires
        table.wf(),
        table.canonical(&u),
        table.canonical(&v),
        table.canonical(&u2),
        table.canonical(&v2),
        u.get()@ == u2.get()@,
        v.get()@ == v2.get()@,
    ensures
        ActualTerm::<String>::Lam(u)@ == ActualTerm::<String>::Lam(u2)@,
        ActualTerm::<String>::App(u, v)@ == ActualTerm::<String>::App(u2, v2)@,
{
    table@.lemma_uids_agree_with_shapes(u.uid(), u.get()@, u2.uid(), u2.get()@);
    table@.lemma_uids_agree_with_shapes(v.uid(), v.get()@, v2.uid(), v2.get()@);
}

/// An application that is on record is what the table answers when the
/// application is built again from structurally equal subterms, unless its
/// entry has gone stale; the answer then carries an identifier that was never
/// used before.
pub proof fn lemma_nested_canonical(
    table: &HConsign<ActualTerm<String>>,
    compound: HTerm,
    u: HTerm,
    v: HTerm,
    u2: HTerm,
    v2: HTerm,
    answer: u64,
    after: ConsignView<TermShape>,
)
    requires
        table.wf(),
        table.canonical(&u),
        table.canonical(&v),
        table.canonical(&u2),
        table.canonical(&v2),
        u.get()@ == u2.get()@,
        v.get()@ == v2.get()@,
        table.canonical(&compound),
        compound.get()@ == TermShape::App(u.uid(), v.uid()),
        table@.interns(TermShape::App(u2.uid(), v2.uid()), answer, after),
    ensures
        answer == compound.uid() || (answer == table@.next && !table@.issued.contains_key(answer)),
{
    lemma_equal_children_equal_shape(table, u, v, u2, v2);
    table@.lemma_canonical_is_reused(
        TermShape::App(u.uid(), v.uid()),
        compound.uid(),
        answer,
        after,
    );
}

} // verus!
