//! Selectors: a key expression together with a value selector, the
//! URL-query-like parameter string after the first `?`.
//!
//! Key-expression validity and intersection are the business of the
//! key-expression crate; they enter the contracts only as named results of
//! its functions.

use vstd::prelude::*;

use crate::errors::SelectorError;

verus! {

/// Whether a string is a valid (canon) key expression, as
/// `zenoh_keyexpr::key_expr::keyexpr::new` decides it.
pub uninterp spec fn is_keyexpr(s: Seq<char>) -> bool;

/// Whether two valid key expressions intersect: whether some key lies in
/// both sets, as `keyexpr::intersects` decides it.
pub uninterp spec fn ke_intersects(a: Seq<char>, b: Seq<char>) -> bool;

/// What `form_urlencoded::parse` yields on a string: its key-value pairs,
/// in order, with percent-encoding decoded.
pub uninterp spec fn form_decoded(s: Seq<char>) -> Seq<(Seq<char>, Seq<char>)>;

/// Relies on `keyexpr::new`: it accepts exactly the valid canon key
/// expressions.
#[verifier::external_body]
pub fn keyexpr_valid(s: &str) -> (r: bool)
    ensures
        r == is_keyexpr(s@),
{
    zenoh_keyexpr::key_expr::keyexpr::new(s).is_ok()
}

/// Relies on `keyexpr::new` and `keyexpr::intersects`: true exactly when
/// both strings are valid key expressions whose key sets share a key.
#[verifier::external_body]
pub fn keyexpr_intersects(a: &str, b: &str) -> (r: bool)
    ensures
        r == (is_keyexpr(a@) && is_keyexpr(b@) && ke_intersects(a@, b@)),
{
    match (
        zenoh_keyexpr::key_expr::keyexpr::new(a),
        zenoh_keyexpr::key_expr::keyexpr::new(b),
    ) {
        (Ok(x), Ok(y)) => x.intersects(y),
        _ => false,
    }
}

/// Relies on `form_urlencoded::parse`: it decodes the string's key-value
/// pairs in order; the result depends on the bytes alone.
#[verifier::external_body]
pub fn decode_pairs(s: &str) -> (r: Vec<(String, String)>)
    ensures
        r@.len() == form_decoded(s@).len(),
        forall|i: int|
            0 <= i < r@.len() ==> r@[i].0@ == form_decoded(s@)[i].0 && r@[i].1@ == form_decoded(
                s@,
            )[i].1,
{
    form_urlencoded::parse(s.as_bytes()).into_owned().collect()
}

/// The position of the first `?`, splitting a selector string into its key
/// expression and its value selector.
pub open spec fn find_qmark(s: Seq<char>, i: int) -> Option<int>
    recommends
        0 <= i,
    decreases s.len() - i,
{
    if i >= s.len() {
        None
    } else if s[i] == '?' {
        Some(i)
    } else {
        find_qmark(s, i + 1)
    }
}

/// The key-expression part of a selector string: everything before the
/// first `?`, or the whole string.
pub open spec fn key_part(s: Seq<char>) -> Seq<char> {
    match find_qmark(s, 0) {
        Some(p) => s.subrange(0, p),
        None => s,
    }
}

/// The value-selector part of a selector string: everything after the
/// first `?`, or the empty string.
pub open spec fn value_part(s: Seq<char>) -> Seq<char> {
    match find_qmark(s, 0) {
        Some(p) => s.subrange(p + 1, s.len() as int),
        None => Seq::<char>::empty(),
    }
}

/// The combination of a key expression, which defines the set of keys
/// relevant to an operation, and a value selector: parameters encoded as
/// in the query section of a URL. Parameter names starting with `_` are
/// reserved; the recovery machinery uses exactly one, `_sn`.
pub struct Selector {
    /// The part identifying which keys are part of the selection.
    pub key_expr: String,
    /// The part identifying which values are part of the selection.
    pub value_selector: String,
}

impl Selector {
    pub open spec fn spec_value_selector(&self) -> Seq<char> {
        self.value_selector@
    }

    /// Makes a selector from an already-validated key expression, with an
    /// empty value selector.
    pub fn from_key_expr(key_expr: String) -> (r: Selector)
        ensures
            r.key_expr@ == key_expr@,
            r.spec_value_selector() == Seq::<char>::empty(),
    {
        Selector { key_expr, value_selector: String::new() }
    }

    /// Parses a selector string: the part before the first `?` must be a
    /// valid key expression; the rest is the value selector.
    pub fn try_from(s: String) -> (r: Result<Selector, SelectorError>)
        ensures
            r is Ok <==> is_keyexpr(key_part(s@)),
            r is Ok ==> r->Ok_0.key_expr@ == key_part(s@) && r->Ok_0.spec_value_selector()
                == value_part(s@),
            r is Err ==> r->Err_0 == SelectorError::InvalidSelector,
    {
        let n = s.as_str().unicode_len();
        let mut i: usize = 0;
        let mut qmark: Option<usize> = None;
        while i < n
            invariant_except_break
                qmark is None,
            invariant
                n == s@.len(),
                0 <= i <= n,
                qmark is None ==> find_qmark(s@, 0) == find_qmark(s@, i as int),
            ensures
                qmark is Some ==> find_qmark(s@, 0) == Some(qmark->0 as int) && qmark->0 < n,
                qmark is None ==> find_qmark(s@, 0) is None,
            decreases n - i,
        {
            if s.as_str().get_char(i) == '?' {
                proof {
                    assert(find_qmark(s@, i as int) == Some(i as int));
                }
                qmark = Some(i);
                break ;
            }
            i = i + 1;
        }
        let (ke, vs) = match qmark {
            Some(p) => {
                let ke = s.as_str().substring_char(0, p).to_owned();
                let vs = s.as_str().substring_char(p + 1, n).to_owned();
                (ke, vs)
            },
            None => {
                proof {
                    assert(key_part(s@) =~= s@);
                }
                let ke = s.clone();
                (ke, String::new())
            },
        };
        if keyexpr_valid(ke.as_str()) {
            Ok(Selector { key_expr: ke, value_selector: vs })
        } else {
            Err(SelectorError::InvalidSelector)
        }
    }

    /// A clone that borrows nothing beyond the original's lifetime.
    pub fn borrowing_clone(&self) -> (r: Selector)
        ensures
            r.key_expr@ == self.key_expr@,
            r.spec_value_selector() == self.spec_value_selector(),
    {
        Selector { key_expr: self.key_expr.clone(), value_selector: self.value_selector.clone() }
    }

    /// Passes ownership of the selector's parts on unchanged.
    pub fn into_owned(self) -> (r: Selector)
        ensures
            r.key_expr@ == self.key_expr@,
            r.spec_value_selector() == self.spec_value_selector(),
    {
        self
    }

    /// An owned copy of this selector.
    pub fn to_owned(&self) -> (r: Selector)
        ensures
            r.key_expr@ == self.key_expr@,
            r.spec_value_selector() == self.spec_value_selector(),
    {
        self.borrowing_clone().into_owned()
    }

    /// This selector's components as a pair.
    pub fn split(self) -> (r: (String, String))
        ensures
            r.0@ == self.key_expr@,
            r.1@ == self.spec_value_selector(),
    {
        (self.key_expr, self.value_selector)
    }

    /// Replaces the value-selector part.
    pub fn with_value_selector(self, value_selector: &str) -> (r: Selector)
        ensures
            r.key_expr@ == self.key_expr@,
            r.spec_value_selector() == value_selector@,
    {
        Selector { key_expr: self.key_expr, value_selector: value_selector.to_owned() }
    }

    /// The value selector as a raw string.
    pub fn value_selector(&self) -> (r: &str)
        ensures
            r@ == self.spec_value_selector(),
    {
        self.value_selector.as_str()
    }

    /// The value selector's key-value pairs, with any urlencoding decoded.
    pub fn decode_value_selector(&self) -> (r: Vec<(String, String)>)
        ensures
            r@.len() == form_decoded(self.spec_value_selector()).len(),
            forall|i: int|
                0 <= i < r@.len() ==> r@[i].0@ == form_decoded(self.spec_value_selector())[i].0
                    && r@[i].1@ == form_decoded(self.spec_value_selector())[i].1,
    {
        decode_pairs(self.value_selector.as_str())
    }
}

/// A value selector's ability to decode itself into key-value pairs.
pub trait ValueSelector {
    fn decode(&self) -> Vec<(String, String)>;
}

impl ValueSelector for String {
    fn decode(&self) -> Vec<(String, String)> {
        decode_pairs(self.as_str())
    }
}

} // verus!
