//! The options of one invocation.
use vstd::prelude::*;
use vstd::string::StringSliceAdditionalSpecFns;

verus! {

/// The options of one invocation, as given on the command line.
pub struct Args {
    /// The files to print; none means standard input.
    pub filename: Option<Vec<String>>,
    /// The number of records: the last NUM, or with a leading `+` from record NUM on.
    pub num_lines: String,
    /// The number of bytes: the last NUM, or with a leading `+` from byte NUM on.
    pub bytes: Option<String>,
    /// Follow the file for appended bytes.
    pub follow: bool,
    /// With `follow`, end once this process is gone.
    pub terminate_after_pid: Option<i32>,
    /// Follow by name, surviving rotation.
    pub follow_name: bool,
    /// Records end with NUL rather than newline.
    pub zero_terminated: bool,
    /// Always print headers giving file names.
    pub verbose: bool,
    /// Never print headers giving file names.
    pub quiet: bool,
}

/// A record or byte count as given on the command line.
#[derive(Clone, Copy, Debug, PartialEq, Eq, Structural)]
pub struct Count {
    pub value: u64,
    /// Written with a leading `+`: count from the start rather than from the end.
    pub from_start: bool,
}

pub open spec fn is_digit(b: u8) -> bool {
    48 <= b <= 57
}

/// The value of the decimal digits `s`.
pub open spec fn decimal_value(s: Seq<u8>) -> nat
    decreases s.len(),
{
    if s.len() == 0 {
        0
    } else {
        decimal_value(s.drop_last()) * 10 + (s.last() - 48) as nat
    }
}

/// The digits of a count: everything after an optional leading `+`.
pub open spec fn count_digits(s: Seq<u8>) -> Seq<u8> {
    if s.len() > 0 && s[0] == 43 { s.drop_first() } else { s }
}

/// A count is an optional `+` and one or more decimal digits whose value fits in
/// 64 bits.
pub open spec fn count_of(s: Seq<u8>) -> Option<Count> {
    let d = count_digits(s);
    if d.len() > 0 && (forall|i: int| 0 <= i < d.len() ==> is_digit(#[trigger] d[i]))
        && decimal_value(d) <= u64::MAX {
        Some(Count { value: decimal_value(d) as u64, from_start: s.len() > 0 && s[0] == 43 })
    } else {
        None
    }
}

proof fn lemma_decimal_prefix_grows(d: Seq<u8>, i: int, j: int)
    requires
        0 <= i <= j <= d.len(),
        forall|k: int| 0 <= k < d.len() ==> is_digit(#[trigger] d[k]),
    ensures
        decimal_value(d.subrange(0, i)) <= decimal_value(d.subrange(0, j)),
    decreases j - i,
{
    if i < j {
        lemma_decimal_prefix_grows(d, i, j - 1);
        assert(d.subrange(0, j).drop_last() =~= d.subrange(0, j - 1));
    }
}

/// Reads a record or byte count; `None` when `text` is not one.
pub fn parse_count(text: &str) -> (r: Option<Count>)
    ensures
        r == count_of(text.spec_bytes()),
{
    let b = text.as_bytes();
    let n: usize = b.len();
    let plus = n > 0 && b[0] == 43;
    let first: usize = if plus { 1 } else { 0 };
    let ghost d = count_digits(b@);
    proof {
        assert(d =~= b@.subrange(first as int, n as int));
    }
    if first >= n {
        return None;
    }
    let mut v: u64 = 0;
    let mut i: usize = first;
    proof {
        assert(d.subrange(0, 0).len() == 0);
    }
    while i < n
        invariant
            first <= i <= n == b@.len(),
            d == b@.subrange(first as int, n as int),
            d == count_digits(text.spec_bytes()),
            b@ == text.spec_bytes(),
            plus == (n > 0 && b@[0] == 43),
            forall|k: int| 0 <= k < i - first ==> is_digit(#[trigger] d[k]),
            v == decimal_value(d.subrange(0, i - first)),
        decreases n - i,
    {
        let c = b[i];
        let ghost k: int = i - first;
        proof {
            assert(d.subrange(0, k + 1).drop_last() =~= d.subrange(0, k));
            assert(d[k] == c);
        }
        if c < 48 || c > 57 {
            proof {
                assert(!is_digit(d[k]));
            }
            return None;
        }
        let digit: u64 = (c - 48) as u64;
        let next = match v.checked_mul(10) {
            Some(m) => m.checked_add(digit),
            None => None,
        };
        match next {
            Some(x) => {
                v = x;
            },
            None => {
                proof {
                    assert(decimal_value(d.subrange(0, k + 1)) == v * 10 + digit);
                    assert(v * 10 + digit > u64::MAX);
                    if forall|j: int| 0 <= j < d.len() ==> is_digit(#[trigger] d[j]) {
                        lemma_decimal_prefix_grows(d, k + 1, d.len() as int);
                        assert(d.subrange(0, d.len() as int) =~= d);
                    }
                }
                return None;
            },
        }
        i = i + 1;
    }
    proof {
        assert(d.subrange(0, d.len() as int) =~= d);
    }
    Some(Count { value: v, from_start: plus })
}

} // verus!
