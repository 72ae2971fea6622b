//! The names of the files of a store: `<id>.kv` for the data segments,
//! with `<id>` in decimal, and `db.idx` for the snapshot.

use vstd::prelude::*;
use vstd::string::{StrSliceExecFns, StringExecFns};

verus! {

/// The extension of a data segment.
pub const DATA_FILE_EXT: &'static str = "kv";

/// The extension of the snapshot.
pub const INDEX_FILE_EXT: &'static str = "idx";

/// The character of the decimal digit `d`.
pub open spec fn digit_char(d: nat) -> char {
    if d == 0 {
        '0'
    } else if d == 1 {
        '1'
    } else if d == 2 {
        '2'
    } else if d == 3 {
        '3'
    } else if d == 4 {
        '4'
    } else if d == 5 {
        '5'
    } else if d == 6 {
        '6'
    } else if d == 7 {
        '7'
    } else if d == 8 {
        '8'
    } else {
        '9'
    }
}

/// The decimal digit that `c` is, if it is one.
pub open spec fn digit_of(c: char) -> Option<nat> {
    if c == '0' {
        Some(0nat)
    } else if c == '1' {
        Some(1nat)
    } else if c == '2' {
        Some(2nat)
    } else if c == '3' {
        Some(3nat)
    } else if c == '4' {
        Some(4nat)
    } else if c == '5' {
        Some(5nat)
    } else if c == '6' {
        Some(6nat)
    } else if c == '7' {
        Some(7nat)
    } else if c == '8' {
        Some(8nat)
    } else if c == '9' {
        Some(9nat)
    } else {
        None
    }
}

/// The decimal numeral of `n`, without leading zeros.
pub open spec fn decimal(n: nat) -> Seq<char>
    decreases n,
{
    if n < 10 {
        seq![digit_char(n)]
    } else {
        decimal(n / 10).push(digit_char(n % 10))
    }
}

/// The number that the decimal digits `s` denote, if `s` is one digit or
/// more and nothing else.
pub open spec fn digits_value(s: Seq<char>) -> Option<nat>
    decreases s.len(),
{
    if s.len() == 0 {
        None
    } else {
        match digit_of(s.last()) {
            None => None,
            Some(d) => if s.len() == 1 {
                Some(d)
            } else {
                match digits_value(s.drop_last()) {
                    None => None,
                    Some(v) => Some(v * 10 + d),
                }
            },
        }
    }
}

/// The number that `s` denotes: decimal digits, with or without a plus
/// sign in front, that denote a number of 64 bits.
pub open spec fn parse_u64(s: Seq<char>) -> Option<u64> {
    let digits = if s.len() > 0 && s[0] == '+' {
        s.skip(1)
    } else {
        s
    };
    digits_u64(digits)
}

/// The number of the data segment that the file name `name` names: what
/// stands before `.kv`, read as a number.
pub open spec fn segment_id(name: Seq<char>) -> Option<u64> {
    let n = name.len() as int;
    if n >= 3 && name[n - 3] == '.' && name[n - 2] == 'k' && name[n - 1] == 'v' {
        parse_u64(name.take(n - 3))
    } else {
        None
    }
}

/// The file name of the data segment with the number `id`.
pub open spec fn data_file_name(id: u64) -> Seq<char> {
    decimal(id as nat) + seq!['.', 'k', 'v']
}

/// The file name of the snapshot.
pub open spec fn index_file_name() -> Seq<char> {
    seq!['d', 'b', '.', 'i', 'd', 'x']
}

/// The path of the file `name` in the directory `root`.
pub open spec fn joined(root: Seq<char>, name: Seq<char>) -> Seq<char> {
    if root.len() == 0 {
        name
    } else if root.last() == '/' {
        root + name
    } else {
        root + seq!['/'] + name
    }
}

/// The digits of a numeral denote its number.
pub proof fn lemma_decimal_value(n: nat)
    ensures
        decimal(n).len() >= 1,
        digits_value(decimal(n)) == Some(n),
        decimal(n)[0] != '+',
    decreases n,
{
    if n >= 10 {
        lemma_decimal_value(n / 10);
        let s = decimal(n);
        assert(s.drop_last() =~= decimal(n / 10));
        assert(s.last() == digit_char(n % 10));
    }
}

/// The name of a data segment names the number of the segment.
pub proof fn lemma_segment_name_round_trip(id: u64)
    ensures
        segment_id(data_file_name(id)) == Some(id),
{
    let name = data_file_name(id);
    let n = name.len() as int;
    lemma_decimal_value(id as nat);
    assert(name.take(n - 3) =~= decimal(id as nat));
}

/// The digit `d` as text.
fn digit_text(d: u64) -> (text: &'static str)
    requires
        d < 10,
    ensures
        text@ == seq![digit_char(d as nat)],
{
    proof {
        reveal_strlit("0");
        reveal_strlit("1");
        reveal_strlit("2");
        reveal_strlit("3");
        reveal_strlit("4");
        reveal_strlit("5");
        reveal_strlit("6");
        reveal_strlit("7");
        reveal_strlit("8");
        reveal_strlit("9");
    }
    let text = if d == 0 {
        "0"
    } else if d == 1 {
        "1"
    } else if d == 2 {
        "2"
    } else if d == 3 {
        "3"
    } else if d == 4 {
        "4"
    } else if d == 5 {
        "5"
    } else if d == 6 {
        "6"
    } else if d == 7 {
        "7"
    } else if d == 8 {
        "8"
    } else {
        "9"
    };
    assert(text@ =~= seq![digit_char(d as nat)]);
    text
}

/// The decimal numeral of `n`.
pub fn to_decimal(n: u64) -> (text: String)
    ensures
        text@ == decimal(n as nat),
{
    let mut text = String::from_str(digit_text(n % 10));
    let mut rest = n / 10;
    let ghost mut low: nat = n as nat;
    while rest > 0
        invariant
            rest == low / 10,
            low >= 10 ==> decimal(n as nat) == decimal(low / 10) + text@,
            low < 10 ==> decimal(n as nat) == text@,
            text@.len() >= 1,
        decreases rest,
    {
        let ghost before = text@;
        text = String::from_str(digit_text(rest % 10)).concat(text.as_str());
        proof {
            let high = low / 10;
            assert(text@ =~= seq![digit_char(high % 10)] + before);
            if high >= 10 {
                assert(decimal(high) == decimal(high / 10).push(digit_char(high % 10)));
                assert(decimal(n as nat) =~= decimal(high / 10) + text@);
            } else {
                assert(decimal(high) =~= seq![digit_char(high)]);
                assert(decimal(n as nat) =~= text@);
            }
            low = high;
        }
        rest = rest / 10;
    }
    text
}

/// The path of the file `name` in the directory `root`.
pub fn join(root: &str, name: &str) -> (path: String)
    ensures
        path@ == joined(root@, name@),
{
    proof {
        reveal_strlit("/");
    }
    let n = root.unicode_len();
    if n == 0 {
        String::from_str(name)
    } else if root.get_char(n - 1) == '/' {
        String::from_str(root).concat(name)
    } else {
        let path = String::from_str(root).concat("/").concat(name);
        assert(path@ =~= root@ + seq!['/'] + name@);
        path
    }
}

/// The path of the data segment with the number `id` in the directory
/// `root`.
pub fn data_path(root: &str, id: u64) -> (path: String)
    ensures
        path@ == joined(root@, data_file_name(id)),
{
    proof {
        reveal_strlit(".kv");
    }
    let name = to_decimal(id).concat(".kv");
    assert(name@ =~= data_file_name(id));
    join(root, name.as_str())
}

/// The path of the snapshot in the directory `root`.
pub fn idx_path(root: &str) -> (path: String)
    ensures
        path@ == joined(root@, index_file_name()),
{
    proof {
        reveal_strlit("db.idx");
    }
    assert("db.idx"@ =~= index_file_name());
    join(root, "db.idx")
}

/// A numeral denotes no less than any of its leading parts.
pub proof fn lemma_digits_value_grows(s: Seq<char>, n: int)
    requires
        1 <= n <= s.len(),
        digits_value(s) is Some,
    ensures
        digits_value(s.take(n)) matches Some(v) && v <= digits_value(s).unwrap(),
    decreases s.len() - n,
{
    if n < s.len() {
        lemma_digits_value_grows(s.drop_last(), n);
        assert(s.drop_last().take(n) =~= s.take(n));
    } else {
        assert(s.take(n) =~= s);
    }
}

/// The decimal digit that `c` is, if it is one.
fn digit_value(c: char) -> (d: Option<u64>)
    ensures
        match d {
            Some(v) => digit_of(c) == Some(v as nat) && v < 10,
            None => digit_of(c) is None,
        },
{
    if c == '0' {
        Some(0)
    } else if c == '1' {
        Some(1)
    } else if c == '2' {
        Some(2)
    } else if c == '3' {
        Some(3)
    } else if c == '4' {
        Some(4)
    } else if c == '5' {
        Some(5)
    } else if c == '6' {
        Some(6)
    } else if c == '7' {
        Some(7)
    } else if c == '8' {
        Some(8)
    } else if c == '9' {
        Some(9)
    } else {
        None
    }
}

/// The number of 64 bits that decimal digits denote, if they denote one.
pub open spec fn digits_u64(digits: Seq<char>) -> Option<u64> {
    match digits_value(digits) {
        Some(v) => if v <= u64::MAX {
            Some(v as u64)
        } else {
            None
        },
        None => None,
    }
}

/// Reads the characters of `name` from `start` to `end` as decimal digits.
fn parse_digits(name: &str, start: usize, end: usize) -> (r: Option<u64>)
    requires
        start <= end <= name@.len(),
    ensures
        r == digits_u64(name@.subrange(start as int, end as int)),
{
    let ghost digits = name@.subrange(start as int, end as int);
    if start == end {
        return None;
    }
    let mut value: u64 = 0;
    let mut i: usize = start;
    while i < end
        invariant
            start <= i <= end <= name@.len(),
            digits == name@.subrange(start as int, end as int),
            start < end,
            i > start ==> digits_value(digits.take(i - start)) == Some(value as nat),
            i == start ==> value == 0,
        ensures
            i == end,
            digits_value(digits.take(i - start)) == Some(value as nat),
        decreases end - i,
    {
        let c = name.get_char(i);
        let ghost upto = digits.take(i + 1 - start);
        proof {
            assert(upto.last() == c);
            assert(upto.drop_last() =~= digits.take(i - start));
        }
        let d = match digit_value(c) {
            Some(d) => d,
            None => {
                proof {
                    assert(digits_value(upto) is None);
                    if digits_value(digits) is Some {
                        lemma_digits_value_grows(digits, i + 1 - start);
                    }
                }
                return None;
            },
        };
        proof {
            if i > start {
                assert(digits_value(upto) == Some((value * 10 + d) as nat));
            } else {
                assert(upto.len() == 1);
                assert(digits_value(upto) == Some(d as nat));
            }
        }
        let next = match value.checked_mul(10) {
            Some(v) => v.checked_add(d),
            None => None,
        };
        match next {
            Some(v) => {
                value = v;
            },
            None => {
                proof {
                    if digits_value(digits) is Some {
                        lemma_digits_value_grows(digits, i + 1 - start);
                    }
                }
                return None;
            },
        }
        i = i + 1;
    }
    proof {
        assert(digits.take(end - start) =~= digits);
    }
    Some(value)
}

/// Reads the file name of a data segment: the number before `.kv`.
pub fn parse_segment_name(name: &str) -> (id: Option<u64>)
    ensures
        id == segment_id(name@),
{
    let n = name.unicode_len();
    if n < 3 {
        return None;
    }
    if name.get_char(n - 3) != '.' || name.get_char(n - 2) != 'k' || name.get_char(n - 1) != 'v' {
        return None;
    }
    let end = n - 3;
    let ghost stem = name@.take(end as int);
    let start: usize = if end > 0 && name.get_char(0) == '+' {
        1
    } else {
        0
    };
    proof {
        if end > 0 {
            assert(stem[0] == name@[0]);
        }
        if start == 0 {
            assert(name@.subrange(0, end as int) =~= stem);
        } else {
            assert(name@.subrange(1, end as int) =~= stem.skip(1));
        }
    }
    parse_digits(name, start, end)
}

/// The numbers of the data segments among the file names `names`, in
/// ascending order, each once.
pub fn walk_dir(names: &Vec<String>) -> (ids: Vec<u64>)
    ensures
        forall|i: int, j: int| 0 <= i < j < ids@.len() ==> ids@[i] < ids@[j],
        forall|id: u64|
            ids@.contains(id) <==> exists|k: int|
                0 <= k < names@.len() && segment_id(#[trigger] names@[k]@) == Some(id),
{
    let mut ids: Vec<u64> = Vec::new();
    let mut k: usize = 0;
    while k < names.len()
        invariant
            k <= names@.len(),
            forall|i: int, j: int| 0 <= i < j < ids@.len() ==> ids@[i] < ids@[j],
            forall|id: u64|
                ids@.contains(id) <==> exists|m: int|
                    0 <= m < k && segment_id(#[trigger] names@[m]@) == Some(id),
        decreases names@.len() - k,
    {
        let ghost before = ids@;
        match parse_segment_name(names[k].as_str()) {
            Some(id) => {
                let mut at: usize = 0;
                while at < ids.len() && ids[at] < id
                    invariant
                        ids@ == before,
                        at <= ids@.len(),
                        forall|i: int| 0 <= i < at ==> ids@[i] < id,
                    decreases ids@.len() - at,
                {
                    at = at + 1;
                }
                if at < ids.len() && ids[at] == id {
                    proof {
                        assert(before[at as int] == id);
                        assert(before.contains(id));
                    }
                } else {
                    ids.insert(at, id);
                    proof {
                        assert(ids@[at as int] == id);
                        assert forall|v: u64| ids@.contains(v) <==> (before.contains(v) || v
                            == id) by {
                            if before.contains(v) {
                                let p = choose|p: int| 0 <= p < before.len() && before[p] == v;
                                let q = if p < at { p } else { p + 1 };
                                assert(ids@[q] == v);
                            }
                            if ids@.contains(v) {
                                let q = choose|q: int| 0 <= q < ids@.len() && ids@[q] == v;
                                if q < at {
                                    assert(before[q] == v);
                                } else if q > at {
                                    assert(before[q - 1] == v);
                                }
                            }
                        }
                    }
                }
                proof {
                    assert forall|v: u64| ids@.contains(v) <==> (before.contains(v) || v == id) by {
                        if ids@ == before {
                            assert(before.contains(id));
                        }
                    }
                }
            },
            None => {},
        }
        proof {
            let parsed = segment_id(names@[k as int]@);
            assert forall|v: u64|
                ids@.contains(v) <==> exists|m: int|
                    0 <= m < k + 1 && segment_id(#[trigger] names@[m]@) == Some(v) by {
                if ids@.contains(v) {
                    if parsed == Some(v) {
                        assert(segment_id(names@[k as int]@) == Some(v));
                    } else {
                        assert(before.contains(v));
                        let m = choose|m: int|
                            0 <= m < k && segment_id(#[trigger] names@[m]@) == Some(v);
                        assert(0 <= m < k + 1 && segment_id(names@[m]@) == Some(v));
                    }
                }
                if exists|m: int| 0 <= m < k + 1 && segment_id(#[trigger] names@[m]@) == Some(v) {
                    let m = choose|m: int|
                        0 <= m < k + 1 && segment_id(#[trigger] names@[m]@) == Some(v);
                    if m < k {
                        assert(before.contains(v));
                    }
                }
            }
        }
        k = k + 1;
    }
    ids
}

} // verus!
