//! The `_sn` selector parameter: a sequence-number range
//! `_sn=<start?>..<end?>` with optional decimal bounds. Recovery queries
//! carry `_sn=<first_missing>..`; the history bootstrap carries `_sn=0..`.

use vstd::prelude::*;

use crate::decimal::{
    all_digits, dec_digits, digits_val, fmt_u64, is_digit, lemma_dec_digits_val, parse_u64,
    parse_u64_spec,
};
use crate::errors::SelectorError;

verus! {

pub open spec fn range_prefix() -> Seq<char> {
    seq!['_', 's', 'n', '=']
}

pub open spec fn opt_digits(v: Option<u64>) -> Seq<char> {
    match v {
        Some(n) => dec_digits(n as nat),
        None => Seq::<char>::empty(),
    }
}

/// The rendered form of a range: `_sn=` then the optional start, `..`, the
/// optional end.
pub open spec fn range_str(start: Option<u64>, end: Option<u64>) -> Seq<char> {
    range_prefix() + opt_digits(start) + seq!['.', '.'] + opt_digits(end)
}

/// The position of the first `..` at or after `i`.
pub open spec fn find_dotdot(s: Seq<char>, i: int) -> Option<int>
    recommends
        0 <= i,
    decreases s.len() - i,
{
    if i + 2 > s.len() {
        None
    } else if s[i] == '.' && s[i + 1] == '.' {
        Some(i)
    } else {
        find_dotdot(s, i + 1)
    }
}

/// The bound on one side of the `..`: an absent side is an open bound, a
/// present side must be a decimal `u64`.
pub open spec fn parse_bound(s: Seq<char>) -> Option<Option<u64>> {
    if s.len() == 0 {
        Some(None)
    } else {
        match parse_u64_spec(s) {
            Some(n) => Some(Some(n)),
            None => None,
        }
    }
}

/// What a range string denotes: it must open with `_sn=`, hold a `..`, and
/// each side of the `..` must be empty or a decimal `u64`.
pub open spec fn parse_range_spec(s: Seq<char>) -> Option<(Option<u64>, Option<u64>)> {
    if s.len() < 6 || s.subrange(0, 4) != range_prefix() {
        None
    } else {
        match find_dotdot(s, 4) {
            None => None,
            Some(p) => {
                let ds = s.subrange(4, p);
                let es = s.subrange(p + 2, s.len() as int);
                match (parse_bound(ds), parse_bound(es)) {
                    (Some(a), Some(b)) => Some((a, b)),
                    _ => None,
                }
            },
        }
    }
}

/// Renders the `_sn` range parameter, exactly as [`range_str`] gives it.
pub fn seq_num_range(start: Option<u64>, end: Option<u64>) -> (r: String)
    ensures
        r@ == range_str(start, end),
{
    proof {
        reveal_strlit("_sn=");
        reveal_strlit("..");
    }
    let mut s = String::new();
    s.append("_sn=");
    match start {
        Some(n) => {
            let ds = fmt_u64(n);
            s.append(ds.as_str());
        },
        None => {},
    }
    s.append("..");
    match end {
        Some(n) => {
            let ds = fmt_u64(n);
            s.append(ds.as_str());
        },
        None => {},
    }
    proof {
        assert("_sn="@ =~= range_prefix());
        assert(".."@ =~= seq!['.', '.']);
        assert(s@ =~= range_str(start, end));
    }
    s
}

/// Parses the `_sn` range parameter: behaves exactly as
/// [`parse_range_spec`], reporting `InvalidSeqNumRange` where no range is
/// denoted.
pub fn parse_seq_num_range(s: &str) -> (r: Result<(Option<u64>, Option<u64>), SelectorError>)
    ensures
        parse_range_spec(s@) is Some ==> r == Result::<
            (Option<u64>, Option<u64>),
            SelectorError,
        >::Ok(parse_range_spec(s@)->0),
        parse_range_spec(s@) is None ==> r == Result::<
            (Option<u64>, Option<u64>),
            SelectorError,
        >::Err(SelectorError::InvalidSeqNumRange),
{
    let n = s.unicode_len();
    if n < 6 {
        return Err(SelectorError::InvalidSeqNumRange);
    }
    let prefix_ok = s.get_char(0) == '_' && s.get_char(1) == 's' && s.get_char(2) == 'n'
        && s.get_char(3) == '=';
    proof {
        assert(s@.subrange(0, 4)[0] == s@[0]);
        assert(s@.subrange(0, 4)[1] == s@[1]);
        assert(s@.subrange(0, 4)[2] == s@[2]);
        assert(s@.subrange(0, 4)[3] == s@[3]);
        if prefix_ok {
            assert(s@.subrange(0, 4) =~= range_prefix());
        }
    }
    if !prefix_ok {
        return Err(SelectorError::InvalidSeqNumRange);
    }
    let mut i: usize = 4;
    let mut dot: Option<usize> = None;
    while i < n - 1
        invariant_except_break
            dot is None,
        invariant
            n == s@.len(),
            6 <= n,
            4 <= i <= n - 1,
            dot is None ==> find_dotdot(s@, 4) == find_dotdot(s@, i as int),
        ensures
            dot is Some ==> find_dotdot(s@, 4) == Some(dot->0 as int) && 4 <= dot->0 && dot->0
                as int + 2 <= n,
            dot is None ==> find_dotdot(s@, 4) is None,
        decreases n - i,
    {
        if s.get_char(i) == '.' && s.get_char(i + 1) == '.' {
            proof {
                assert(i as int + 2 <= s@.len());
                assert(s@[i as int] == '.');
                assert(s@[i as int + 1] == '.');
                assert(find_dotdot(s@, i as int) == Some(i as int));
            }
            dot = Some(i);
            break ;
        }
        i = i + 1;
    }
    let p = match dot {
        Some(p) => p,
        None => {
            return Err(SelectorError::InvalidSeqNumRange);
        },
    };
    let ds = s.substring_char(4, p);
    let es = s.substring_char(p + 2, n);
    let a = if ds.unicode_len() == 0 {
        proof {
            assert(parse_bound(s@.subrange(4, p as int)) == Some(Option::<u64>::None));
        }
        None
    } else {
        match parse_u64(ds) {
            Some(v) => Some(v),
            None => {
                return Err(SelectorError::InvalidSeqNumRange);
            },
        }
    };
    let b = if es.unicode_len() == 0 {
        proof {
            assert(parse_bound(s@.subrange(p + 2, s@.len() as int)) == Some(Option::<u64>::None));
        }
        None
    } else {
        match parse_u64(es) {
            Some(v) => Some(v),
            None => {
                return Err(SelectorError::InvalidSeqNumRange);
            },
        }
    };
    proof {
        assert(parse_range_spec(s@) == Some((a, b)));
    }
    Ok((a, b))
}

/// Skipping over non-dot positions does not change where the first `..` is.
proof fn lemma_find_dotdot_skip(s: Seq<char>, i: int, p: int)
    requires
        0 <= i <= p,
        p + 2 <= s.len(),
        forall|j: int| i <= j < p ==> s[j] != '.',
        s[p] == '.',
        s[p + 1] == '.',
    ensures
        find_dotdot(s, i) == Some(p),
    decreases p - i,
{
    if i < p {
        lemma_find_dotdot_skip(s, i + 1, p);
    }
}

/// A digit is not a dot.
proof fn lemma_digit_not_dot(c: char)
    requires
        is_digit(c),
    ensures
        c != '.',
{
    assert('.' as u32 == 46);
}

/// Rendering a range and parsing it back gives the same bounds, for every
/// combination of present and absent bounds.
pub proof fn lemma_range_round_trip(start: Option<u64>, end: Option<u64>)
    ensures
        parse_range_spec(range_str(start, end)) == Some((start, end)),
{
    let s = range_str(start, end);
    let ds = opt_digits(start);
    let es = opt_digits(end);
    let p = 4 + ds.len() as int;
    if start is Some {
        lemma_dec_digits_val(start->0 as nat);
    }
    if end is Some {
        lemma_dec_digits_val(end->0 as nat);
    }
    assert(s.len() == 6 + ds.len() + es.len());
    assert(s.subrange(0, 4) =~= range_prefix());
    assert forall|j: int| 4 <= j < p implies s[j] != '.' by {
        assert(s[j] == ds[j - 4]);
        assert(is_digit(ds[j - 4]));
        lemma_digit_not_dot(ds[j - 4]);
    }
    assert(s[p] == '.');
    assert(s[p + 1] == '.');
    lemma_find_dotdot_skip(s, 4, p);
    assert(s.subrange(4, p) =~= ds);
    assert(s.subrange(p + 2, s.len() as int) =~= es);
    match start {
        Some(v) => {
            crate::decimal::lemma_u64_round_trip(v);
            assert(parse_bound(ds) == Some(Some(v)));
        },
        None => {
            assert(parse_bound(ds) == Some(Option::<u64>::None));
        },
    }
    match end {
        Some(v) => {
            crate::decimal::lemma_u64_round_trip(v);
            assert(parse_bound(es) == Some(Some(v)));
        },
        None => {
            assert(parse_bound(es) == Some(Option::<u64>::None));
        },
    }
}

} // verus!
