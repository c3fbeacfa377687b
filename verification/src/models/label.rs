use rand::distributions::{Alphanumeric, DistString};
use std::ops::{Add, AddAssign};
use vstd::prelude::*;
use vstd::string::StringExecFns;

verus! {

/// `text` split at its first `.`: the part before it and the part after it.
#[verifier::external_body]
fn split_at_first_dot<'a>(text: &'a str) -> (r: Option<(&'a str, &'a str)>)
    ensures
        match r {
            None => !text@.contains('.'),
            Some((prefix, suffix)) => {
                &&& text@ == prefix@ + seq!['.'] + suffix@
                &&& !prefix@.contains('.')
            },
        },
{
    text.split_once('.')
}

/// Whether `text` starts with `prefix`.
#[verifier::external_body]
fn text_starts_with(text: &str, prefix: &str) -> (r: bool)
    ensures
        r == (prefix@.len() <= text@.len() && text@.subrange(0, prefix@.len() as int) == prefix@),
{
    text.starts_with(prefix)
}

/// Whether `c` is an ASCII letter or digit.
pub open spec fn is_alphanumeric(c: char) -> bool {
    ||| 'A' <= c <= 'Z'
    ||| 'a' <= c <= 'z'
    ||| '0' <= c <= '9'
}

/// `len` characters drawn by rand's `Alphanumeric` distribution (`sample_string`) from the
/// thread's generator: each is an ASCII letter or digit; which ones is left to chance.
#[verifier::external_body]
fn random_alphanumeric(len: usize) -> (s: String)
    ensures
        s@.len() == len,
        forall|i: int| 0 <= i < len ==> is_alphanumeric(#[trigger] s@[i]),
{
    Alphanumeric.sample_string(&mut rand::thread_rng(), len)
}

/// Name used in model definitions: transitions, states, variables, domains.
#[derive(Debug, Eq, PartialOrd, Ord, Hash)]
pub struct Label(String);

impl View for Label {
    type V = Seq<char>;

    open spec fn view(&self) -> Seq<char> {
        self.text()
    }
}

impl Clone for Label {
    fn clone(&self) -> (r: Self)
        ensures
            r == *self,
    {
        Label(self.0.clone())
    }
}

impl PartialEq for Label {
    fn eq(&self, other: &Self) -> (r: bool) {
        self.0 == other.0
    }
}

impl vstd::std_specs::cmp::PartialEqSpecImpl for Label {
    open spec fn obeys_eq_spec() -> bool {
        true
    }

    open spec fn eq_spec(&self, other: &Label) -> bool {
        self@ == other@
    }
}

impl Label {
    /// The characters of the label.
    pub closed spec fn text(&self) -> Seq<char> {
        self.0@
    }

    pub fn new() -> (l: Self)
        ensures
            l@ == Seq::<char>::empty(),
    {
        Label(String::new())
    }

    /// The label with the characters of `text`.
    pub fn from_str(text: &str) -> (l: Self)
        ensures
            l@ == text@,
    {
        Label(text.to_owned())
    }

    /// The label owning `text`.
    pub fn from_string(text: String) -> (l: Self)
        ensures
            l@ == text@,
    {
        Label(text)
    }

    /// The characters of the label as a string slice.
    pub fn as_str(&self) -> (s: &str)
        ensures
            s@ == self@,
    {
        self.0.as_str()
    }

    pub fn is_empty(&self) -> (r: bool)
        ensures
            r == (self@.len() == 0),
    {
        self.0.as_str().is_empty()
    }

    /// The label cut at its first `.`: the part before it and the part after it;
    /// a label without `.` is returned whole, beside an empty label.
    pub fn get_first_ident(&self) -> (r: (Label, Label))
        ensures
            self@.contains('.') ==> {
                &&& self@ == r.0@ + seq!['.'] + r.1@
                &&& !r.0@.contains('.')
            },
            !self@.contains('.') ==> r.0@ == self@ && r.1@ == Seq::<char>::empty(),
    {
        match split_at_first_dot(self.0.as_str()) {
            None => (self.clone(), Label::new()),
            Some((prefix, suffix)) => {
                assert((prefix@ + seq!['.'] + suffix@)[prefix@.len() as int] == '.');
                (Label::from_str(prefix), Label::from_str(suffix))
            },
        }
    }

    /// This label placed in `domain`: the domain, a `.`, then this label.
    pub fn set_domain(&self, domain: Label) -> (r: Label)
        ensures
            r@ == domain@ + seq!['.'] + self@,
    {
        proof {
            reveal_strlit(".");
        }
        let mut text = domain.0;
        text.append(".");
        text.append(self.0.as_str());
        Label(text)
    }

    /// A label of `len` random ASCII letters and digits.
    pub fn new_random(len: usize) -> (l: Self)
        ensures
            l@.len() == len,
            forall|i: int| 0 <= i < len ==> is_alphanumeric(#[trigger] l@[i]),
    {
        Label::from_string(random_alphanumeric(len))
    }

    /// Whether the label starts with `domain` followed by a `.`.
    pub fn has_domain(&self, domain: &Label) -> (r: bool)
        ensures
            r == (domain@.len() + 1 <= self@.len() && self@.subrange(0, domain@.len() + 1int) == domain@
                + seq!['.']),
    {
        proof {
            reveal_strlit(".");
        }
        let mut prefix = domain.0.clone();
        prefix.append(".");
        assert(prefix@ == domain@ + seq!['.']);
        text_starts_with(self.0.as_str(), prefix.as_str())
    }
}

/// Short label constructor.
pub fn lbl(s: &str) -> (l: Label)
    ensures
        l@ == s@,
{
    Label::from_str(s)
}

impl Default for Label {
    fn default() -> (l: Self)
        ensures
            l@ == Seq::<char>::empty(),
    {
        Label::new()
    }
}

impl vstd::std_specs::convert::FromSpecImpl<&str> for Label {
    open spec fn obeys_from_spec() -> bool {
        false
    }

    open spec fn from_spec(v: &str) -> Label {
        arbitrary()
    }
}

impl From<&str> for Label {
    fn from(value: &str) -> (l: Self)
        ensures
            l@ == value@,
    {
        Label::from_str(value)
    }
}

impl vstd::std_specs::convert::FromSpecImpl<String> for Label {
    open spec fn obeys_from_spec() -> bool {
        false
    }

    open spec fn from_spec(v: String) -> Label {
        arbitrary()
    }
}

impl From<String> for Label {
    fn from(value: String) -> (l: Self)
        ensures
            l@ == value@,
    {
        Label(value)
    }
}

impl vstd::std_specs::ops::AddSpecImpl<&str> for Label {
    open spec fn obeys_add_spec() -> bool {
        false
    }

    open spec fn add_req(self, rhs: &str) -> bool {
        true
    }

    open spec fn add_spec(self, rhs: &str) -> Label {
        self
    }
}

impl Add<&str> for Label {
    type Output = Label;

    fn add(self, rhs: &str) -> (r: Label)
        ensures
            r@ == self@ + rhs@,
    {
        let mut text = self.0;
        text.append(rhs);
        Label(text)
    }
}

impl vstd::std_specs::ops::AddSpecImpl<&Label> for Label {
    open spec fn obeys_add_spec() -> bool {
        false
    }

    open spec fn add_req(self, rhs: &Label) -> bool {
        true
    }

    open spec fn add_spec(self, rhs: &Label) -> Label {
        self
    }
}

impl Add<&Label> for Label {
    type Output = Label;

    fn add(self, rhs: &Label) -> (r: Label)
        ensures
            r@ == self@ + rhs@,
    {
        let mut text = self.0;
        text.append(rhs.0.as_str());
        Label(text)
    }
}

impl vstd::std_specs::ops::AddSpecImpl<Label> for Label {
    open spec fn obeys_add_spec() -> bool {
        false
    }

    open spec fn add_req(self, rhs: Label) -> bool {
        true
    }

    open spec fn add_spec(self, rhs: Label) -> Label {
        self
    }
}

impl Add<Label> for Label {
    type Output = Label;

    fn add(self, rhs: Label) -> (r: Label)
        ensures
            r@ == self@ + rhs@,
    {
        let mut text = self.0;
        text.append(rhs.0.as_str());
        Label(text)
    }
}

impl AddAssign<&str> for Label {
    fn add_assign(&mut self, rhs: &str)
        ensures
            final(self)@ == old(self)@ + rhs@,
    {
        self.0.append(rhs);
    }
}

impl AddAssign<Label> for Label {
    fn add_assign(&mut self, rhs: Label)
        ensures
            final(self)@ == old(self)@ + rhs@,
    {
        self.0.append(rhs.0.as_str());
    }
}

} // verus!
