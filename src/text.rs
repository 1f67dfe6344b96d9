use vstd::prelude::*;

verus! {

/// The outcome of reading one attribute file of a CPU.
#[derive(Debug, Clone, PartialEq, Eq)]
pub enum AttributeRead {
    /// The file does not exist.
    Missing,
    /// The file exists but could not be read.
    Unreadable,
    /// The bytes the file holds.
    Contents(Vec<u8>),
}

pub open spec fn is_space(b: u8) -> bool {
    b == 32 || (9 <= b && b <= 13)
}

pub open spec fn is_digit(b: u8) -> bool {
    48 <= b && b <= 57
}

/// `s` without its leading ASCII whitespace.
pub open spec fn trim_start(s: Seq<u8>) -> Seq<u8>
    decreases s.len(),
{
    if s.len() > 0 && is_space(s[0]) {
        trim_start(s.subrange(1, s.len() as int))
    } else {
        s
    }
}

/// `s` without its trailing ASCII whitespace.
pub open spec fn trim_end(s: Seq<u8>) -> Seq<u8>
    decreases s.len(),
{
    if s.len() > 0 && is_space(s.last()) {
        trim_end(s.drop_last())
    } else {
        s
    }
}

pub open spec fn trimmed(s: Seq<u8>) -> Seq<u8> {
    trim_end(trim_start(s))
}

/// The number that the decimal digits `s` write.
pub open spec fn decimal_value(s: Seq<u8>) -> int
    decreases s.len(),
{
    if s.len() == 0 {
        0
    } else {
        decimal_value(s.drop_last()) * 10 + (s.last() - 48)
    }
}

/// `s` is a non-empty run of decimal digits whose value fits in 64 bits.
pub open spec fn decimal(s: Seq<u8>) -> Option<u64> {
    if s.len() > 0 && (forall|i: int| 0 <= i < s.len() ==> is_digit(#[trigger] s[i]))
        && decimal_value(s) <= u64::MAX {
        Some(decimal_value(s) as u64)
    } else {
        None
    }
}

/// A CPU id written in decimal, surrounded by whitespace or not.
pub open spec fn id_text(s: Seq<u8>) -> Option<usize> {
    match decimal(trimmed(s)) {
        Some(v) => if v <= usize::MAX {
            Some(v as usize)
        } else {
            None
        },
        None => None,
    }
}

/// The comma-separated fields of `s`; text without a comma is one field.
pub open spec fn fields(s: Seq<u8>) -> Seq<Seq<u8>>
    decreases s.len(),
{
    if s.len() == 0 {
        seq![Seq::<u8>::empty()]
    } else if s.last() == 44 {
        fields(s.drop_last()).push(Seq::<u8>::empty())
    } else {
        let f = fields(s.drop_last());
        f.update(f.len() - 1, f.last().push(s.last()))
    }
}

/// The ids of a sibling list: each comma-separated field that holds a
/// decimal id, in order; other fields are skipped.
pub open spec fn id_list(s: Seq<u8>) -> Seq<usize> {
    fields(s).filter_map(|f: Seq<u8>| id_text(f))
}

/// What an online attribute says: a missing file means a CPU that cannot be
/// taken offline, so online; an unreadable one counts as offline; otherwise
/// the CPU is online when the file holds `1`.
pub open spec fn online_flag(read: AttributeRead) -> bool {
    match read {
        AttributeRead::Missing => true,
        AttributeRead::Unreadable => false,
        AttributeRead::Contents(c) => trimmed(c@) == seq![49u8],
    }
}

/// The text written to an online control to reach `online`.
pub open spec fn control_text(online: bool) -> Seq<u8> {
    if online {
        seq![49u8]
    } else {
        seq![48u8]
    }
}

/// Bounds of `s[lo..hi]` without its surrounding whitespace.
fn trim_range(s: &[u8], lo: usize, hi: usize) -> (r: (usize, usize))
    requires
        lo <= hi <= s@.len(),
    ensures
        lo <= r.0 <= r.1 <= hi,
        s@.subrange(r.0 as int, r.1 as int) == trimmed(s@.subrange(lo as int, hi as int)),
{
    let mut i = lo;
    while i < hi && (s[i] == 32 || (9 <= s[i] && s[i] <= 13))
        invariant
            lo <= i <= hi <= s@.len(),
            trim_start(s@.subrange(lo as int, hi as int)) == trim_start(s@.subrange(i as int, hi as int)),
        decreases hi - i,
    {
        proof {
            let t = s@.subrange(i as int, hi as int);
            assert(t.subrange(1, t.len() as int) =~= s@.subrange(i + 1, hi as int));
        }
        i += 1;
    }
    proof {
        let t = s@.subrange(i as int, hi as int);
        if t.len() > 0 {
            assert(t[0] == s@[i as int]);
        }
    }
    let mut j = hi;
    while j > i && (s[j - 1] == 32 || (9 <= s[j - 1] && s[j - 1] <= 13))
        invariant
            lo <= i <= j <= hi <= s@.len(),
            trimmed(s@.subrange(lo as int, hi as int)) == trim_end(s@.subrange(i as int, j as int)),
        decreases j - i,
    {
        proof {
            let t = s@.subrange(i as int, j as int);
            assert(t.drop_last() =~= s@.subrange(i as int, j - 1));
        }
        j -= 1;
    }
    proof {
        let t = s@.subrange(i as int, j as int);
        if t.len() > 0 {
            assert(t.last() == s@[j - 1]);
        }
    }
    (i, j)
}

proof fn lemma_decimal_prefix_le(s: Seq<u8>, i: int)
    requires
        0 <= i <= s.len(),
        forall|k: int| 0 <= k < s.len() ==> is_digit(#[trigger] s[k]),
    ensures
        decimal_value(s.subrange(0, i)) <= decimal_value(s),
        decimal_value(s) >= 0,
    decreases s.len() - i,
{
    if i < s.len() {
        lemma_decimal_prefix_le(s, i + 1);
        let p = s.subrange(0, i + 1);
        assert(p.drop_last() =~= s.subrange(0, i));
        lemma_decimal_nonneg(s.subrange(0, i));
    } else {
        assert(s.subrange(0, i) =~= s);
        lemma_decimal_nonneg(s);
    }
}

proof fn lemma_decimal_nonneg(s: Seq<u8>)
    requires
        forall|k: int| 0 <= k < s.len() ==> is_digit(#[trigger] s[k]),
    ensures
        decimal_value(s) >= 0,
    decreases s.len(),
{
    if s.len() > 0 {
        lemma_decimal_nonneg(s.drop_last());
        assert(is_digit(s[s.len() - 1]));
    }
}

/// The value of the decimal digits `s[lo..hi]`.
fn decimal_range(s: &[u8], lo: usize, hi: usize) -> (r: Option<u64>)
    requires
        lo <= hi <= s@.len(),
    ensures
        r == decimal(s@.subrange(lo as int, hi as int)),
{
    let ghost t = s@.subrange(lo as int, hi as int);
    if lo == hi {
        return None;
    }
    let mut v: u64 = 0;
    let mut i = lo;
    while i < hi
        invariant
            lo <= i <= hi <= s@.len(),
            t == s@.subrange(lo as int, hi as int),
            forall|k: int| 0 <= k < i - lo ==> is_digit(#[trigger] t[k]),
            v == decimal_value(t.subrange(0, i - lo)),
        decreases hi - i,
    {
        let b = s[i];
        proof {
            assert(t[i - lo] == b);
        }
        if b < 48 || b > 57 {
            return None;
        }
        let ghost next = t.subrange(0, i - lo + 1);
        proof {
            assert(next.drop_last() =~= t.subrange(0, i - lo));
        }
        match v.checked_mul(10) {
            Some(w) => match w.checked_add((b - 48) as u64) {
                Some(x) => {
                    v = x;
                },
                None => {
                    proof {
                        lemma_rest_digits_or_none(t, i - lo + 1, next);
                    }
                    return None;
                },
            },
            None => {
                proof {
                    lemma_rest_digits_or_none(t, i - lo + 1, next);
                }
                return None;
            },
        }
        i += 1;
    }
    proof {
        assert(t.subrange(0, hi - lo) =~= t);
    }
    Some(v)
}

/// Once a prefix of digits is too large, the whole text is no 64-bit
/// decimal.
proof fn lemma_rest_digits_or_none(t: Seq<u8>, n: int, prefix: Seq<u8>)
    requires
        0 < n <= t.len(),
        prefix == t.subrange(0, n),
        forall|k: int| 0 <= k < n ==> is_digit(#[trigger] t[k]),
        decimal_value(prefix) > u64::MAX,
    ensures
        decimal(t) is None,
{
    if forall|k: int| 0 <= k < t.len() ==> is_digit(#[trigger] t[k]) {
        lemma_decimal_prefix_le(t, n);
    }
}

/// Parses a number written in decimal digits only.
pub fn parse_decimal(s: &[u8]) -> (r: Option<u64>)
    ensures
        r == decimal(s@),
{
    let r = decimal_range(s, 0, s.len());
    proof {
        assert(s@.subrange(0, s@.len() as int) =~= s@);
    }
    r
}

/// The CPU id that `s[lo..hi]` writes, whitespace around it allowed.
fn id_range(s: &[u8], lo: usize, hi: usize) -> (r: Option<usize>)
    requires
        lo <= hi <= s@.len(),
    ensures
        r == id_text(s@.subrange(lo as int, hi as int)),
{
    let (a, b) = trim_range(s, lo, hi);
    match decimal_range(s, a, b) {
        Some(v) => if v <= usize::MAX as u64 {
            Some(v as usize)
        } else {
            None
        },
        None => None,
    }
}

/// Parses a CPU id attribute such as a core or package id: a decimal number
/// with optional surrounding whitespace.
pub fn parse_id(s: &[u8]) -> (r: Option<usize>)
    ensures
        r == id_text(s@),
{
    let r = id_range(s, 0, s.len());
    proof {
        assert(s@.subrange(0, s@.len() as int) =~= s@);
    }
    r
}

/// Parses a cumulative counter such as an idle-state time: a decimal
/// number with optional surrounding whitespace.
pub fn parse_counter(s: &[u8]) -> (r: Option<u64>)
    ensures
        r == decimal(trimmed(s@)),
{
    let (a, b) = trim_range(s, 0, s.len());
    proof {
        assert(s@.subrange(0, s@.len() as int) =~= s@);
    }
    decimal_range(s, a, b)
}

/// Parses a sibling list such as `0,4`: the comma-separated fields that
/// hold an id, in order.
pub fn parse_id_list(s: &[u8]) -> (r: Vec<usize>)
    ensures
        r@ == id_list(s@),
{
    let ghost g = |f: Seq<u8>| id_text(f);
    let ghost mut done: Seq<Seq<u8>> = Seq::empty();
    let mut r: Vec<usize> = Vec::new();
    let mut start: usize = 0;
    let mut i: usize = 0;
    proof {
        assert(s@.subrange(0, 0) =~= Seq::<u8>::empty());
        assert(fields(Seq::<u8>::empty()) =~= done.push(s@.subrange(0, 0)));
    }
    while i < s.len()
        invariant
            start <= i <= s@.len(),
            g == (|f: Seq<u8>| id_text(f)),
            fields(s@.subrange(0, i as int)) == done.push(s@.subrange(start as int, i as int)),
            r@ == done.filter_map(g),
        decreases s@.len() - i,
    {
        let ghost next = s@.subrange(0, i + 1);
        proof {
            assert(next.drop_last() =~= s@.subrange(0, i as int));
            assert(next.last() == s@[i as int]);
        }
        if s[i] == 44 {
            let field = id_range(s, start, i);
            proof {
                let cur = s@.subrange(start as int, i as int);
                assert(done.push(cur).drop_last() =~= done);
                assert(done.push(cur).filter_map(g) == match g(cur) {
                    Some(x) => done.filter_map(g) + seq![x],
                    None => done.filter_map(g),
                });
                done = done.push(cur);
                assert(s@.subrange(i + 1, i + 1) =~= Seq::<u8>::empty());
                assert(fields(next) =~= done.push(s@.subrange(i + 1, i + 1)));
            }
            match field {
                Some(x) => {
                    r.push(x);
                    proof {
                        assert(r@ =~= done.filter_map(g));
                    }
                },
                None => {},
            }
            start = i + 1;
        } else {
            proof {
                let cur = s@.subrange(start as int, i as int);
                assert(cur.push(s@[i as int]) =~= s@.subrange(start as int, i + 1));
                assert(fields(next) =~= done.push(s@.subrange(start as int, i + 1)));
            }
        }
        i += 1;
    }
    let last = id_range(s, start, s.len());
    proof {
        let cur = s@.subrange(start as int, s@.len() as int);
        assert(s@.subrange(0, s@.len() as int) =~= s@);
        assert(done.push(cur).drop_last() =~= done);
    }
    match last {
        Some(x) => {
            r.push(x);
            proof {
                assert(r@ =~= done.push(s@.subrange(start as int, s@.len() as int)).filter_map(g));
            }
        },
        None => {},
    }
    r
}

/// Reads an online attribute: see `online_flag`.
pub fn parse_online(read: &AttributeRead) -> (r: bool)
    ensures
        r == online_flag(*read),
{
    match read {
        AttributeRead::Missing => true,
        AttributeRead::Unreadable => false,
        AttributeRead::Contents(c) => {
            let (a, b) = trim_range(c.as_slice(), 0, c.len());
            proof {
                assert(c@.subrange(0, c@.len() as int) =~= c@);
            }
            let one = b - a == 1 && c[a] == 49;
            proof {
                let t = c@.subrange(a as int, b as int);
                if one {
                    assert(t =~= seq![49u8]);
                } else if t.len() == 1 {
                    assert(t[0] == c@[a as int]);
                }
            }
            one
        },
    }
}

/// The text that sets an online control to `online`.
pub fn control_bytes(online: bool) -> (r: Vec<u8>)
    ensures
        r@ == control_text(online),
{
    let r = if online {
        vec![49u8]
    } else {
        vec![48u8]
    };
    proof {
        assert(r@ =~= control_text(online));
    }
    r
}

/// The id of a CPU directory entry named `cpu` and a decimal number, such
/// as `cpu12`.
pub open spec fn cpu_dir_id(name: Seq<u8>) -> Option<usize> {
    if name.len() > 3 && name[0] == 99u8 && name[1] == 112u8 && name[2] == 117u8 {
        match decimal(name.subrange(3, name.len() as int)) {
            Some(v) => if v <= usize::MAX {
                Some(v as usize)
            } else {
                None
            },
            None => None,
        }
    } else {
        None
    }
}

/// Recognizes the directory entry of a logical CPU and reads its id.
pub fn parse_cpu_dir_name(name: &[u8]) -> (r: Option<usize>)
    ensures
        r == cpu_dir_id(name@),
{
    if name.len() <= 3 || name[0] != 99 || name[1] != 112 || name[2] != 117 {
        return None;
    }
    match decimal_range(name, 3, name.len()) {
        Some(v) => if v <= usize::MAX as u64 {
            Some(v as usize)
        } else {
            None
        },
        None => None,
    }
}

/// The directory entry of an idle state: its name starts with `state`.
pub open spec fn idle_state_name(name: Seq<u8>) -> bool {
    name.len() >= 5 && name.subrange(0, 5) == seq![115u8, 116u8, 97u8, 116u8, 101u8]
}

/// Recognizes the directory entry of an idle state.
pub fn is_idle_state_name(name: &[u8]) -> (r: bool)
    ensures
        r == idle_state_name(name@),
{
    let r = name.len() >= 5 && name[0] == 115 && name[1] == 116 && name[2] == 97 && name[3] == 116
        && name[4] == 101;
    proof {
        if name@.len() >= 5 {
            let p = name@.subrange(0, 5);
            if r {
                assert(p =~= seq![115u8, 116u8, 97u8, 116u8, 101u8]);
            } else if p == seq![115u8, 116u8, 97u8, 116u8, 101u8] {
                assert(p[0] == name@[0] && p[1] == name@[1] && p[2] == name@[2] && p[3] == name@[3]
                    && p[4] == name@[4]);
            }
        }
    }
    r
}

} // verus!
