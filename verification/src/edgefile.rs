//! The edge-list file format: one edge per line, fields separated by
//! single spaces or tabs, `source destination [weight]` as decimal
//! numbers (with an optional leading `+`).

use crate::types::{Edge, EdgeList};
use vstd::prelude::*;

verus! {

pub open spec fn is_separator(c: u8) -> bool {
    c == 32 || c == 9
}

/// The fields of a line: the pieces between separators, empty ones
/// included (`n` separators make `n + 1` fields).
pub open spec fn fields(s: Seq<u8>) -> Seq<Seq<u8>>
    decreases s.len(),
{
    if s.len() == 0 {
        seq![Seq::<u8>::empty()]
    } else {
        let f = fields(s.drop_last());
        if is_separator(s.last()) {
            f.push(Seq::<u8>::empty())
        } else {
            f.update(f.len() - 1, f.last().push(s.last()))
        }
    }
}

pub open spec fn is_digit(c: u8) -> bool {
    48 <= c <= 57
}

pub open spec fn all_digits(d: Seq<u8>) -> bool {
    forall|i: int| 0 <= i < d.len() ==> is_digit(#[trigger] d[i])
}

/// The number that the decimal digits `d` write.
pub open spec fn decimal_value(d: Seq<u8>) -> nat
    decreases d.len(),
{
    if d.len() == 0 {
        0
    } else {
        decimal_value(d.drop_last()) * 10 + (d.last() - 48) as nat
    }
}

/// The `usize` a field stands for: decimal digits, at least one, after an
/// optional `+`, of a value that fits.
pub open spec fn field_value(f: Seq<u8>) -> Option<usize> {
    let d = if f.len() > 0 && f[0] == 43 {
        f.drop_first()
    } else {
        f
    };
    if d.len() > 0 && all_digits(d) && decimal_value(d) <= usize::MAX {
        Some(decimal_value(d) as usize)
    } else {
        None
    }
}

/// The edge a line stands for: its first two fields are the endpoints and
/// a third field, if there is one, the weight; `None` where one of these
/// is not a number.
pub open spec fn edge_of_line(s: Seq<u8>) -> Option<Edge> {
    let fs = fields(s);
    if fs.len() < 2 {
        None
    } else {
        match (field_value(fs[0]), field_value(fs[1])) {
            (Some(a), Some(b)) => if fs.len() >= 3 {
                match field_value(fs[2]) {
                    Some(w) => Some((a, b, Some(w))),
                    None => None,
                }
            } else {
                Some((a, b, None))
            },
            _ => None,
        }
    }
}

proof fn lemma_fields_nonempty(s: Seq<u8>)
    ensures
        fields(s).len() >= 1,
    decreases s.len(),
{
    if s.len() > 0 {
        lemma_fields_nonempty(s.drop_last());
    }
}

proof fn lemma_value_grows(d: Seq<u8>, j: int)
    requires
        0 <= j <= d.len(),
        all_digits(d),
    ensures
        decimal_value(d.subrange(0, j)) <= decimal_value(d),
    decreases d.len() - j,
{
    if j < d.len() {
        lemma_value_grows(d, j + 1);
        assert(d.subrange(0, j + 1).drop_last() =~= d.subrange(0, j));
    } else {
        assert(d.subrange(0, j) =~= d);
    }
}

/// The value of the field `line[start .. end]`.
fn parse_field(line: &[u8], start: usize, end: usize) -> (r: Option<usize>)
    requires
        start <= end <= line@.len(),
    ensures
        r == field_value(line@.subrange(start as int, end as int)),
{
    let ghost f = line@.subrange(start as int, end as int);
    let mut i = start;
    if start < end && line[start] == 43 {
        i = start + 1;
    }
    let ghost d = line@.subrange(i as int, end as int);
    proof {
        if start < end && line@[start as int] == 43 {
            assert(d =~= f.drop_first());
        } else {
            assert(d =~= f);
        }
    }
    if i == end {
        return None;
    }
    let mut acc: usize = 0;
    let mut j = i;
    while j < end
        invariant
            i <= j <= end <= line@.len(),
            d == line@.subrange(i as int, end as int),
            d.len() > 0,
            field_value(line@.subrange(start as int, end as int)) == (if all_digits(d) && decimal_value(d)
                <= usize::MAX {
                Some(decimal_value(d) as usize)
            } else {
                None
            }),
            all_digits(d.subrange(0, j - i)),
            acc == decimal_value(d.subrange(0, j - i)),
        decreases end - j,
    {
        let c = line[j];
        let ghost before = d.subrange(0, j - i);
        let ghost after = d.subrange(0, j - i + 1);
        proof {
            assert(after.drop_last() =~= before);
            assert(after.last() == c);
        }
        if c < 48 || c > 57 {
            proof {
                assert(!is_digit(d[j - i]));
            }
            return None;
        }
        let next = match acc.checked_mul(10) {
            Some(m) => m.checked_add((c - 48) as usize),
            None => None,
        };
        match next {
            Some(v) => {
                acc = v;
            },
            None => {
                proof {
                    assert(decimal_value(after) > usize::MAX);
                    if all_digits(d) {
                        lemma_value_grows(d, j - i + 1);
                    }
                }
                return None;
            },
        }
        j = j + 1;
    }
    proof {
        assert(d.subrange(0, j - i) =~= d);
    }
    Some(acc)
}

/// The edge one line of an edge-list file stands for, if it stands for one.
pub fn parse_edge_line(line: &[u8]) -> (r: Option<Edge>)
    requires
        line@.len() < usize::MAX,
    ensures
        r == edge_of_line(line@),
{
    let n = line.len();
    let mut count: usize = 1;
    let mut start: usize = 0;
    let mut first: Option<usize> = None;
    let mut second: Option<usize> = None;
    let mut third: Option<usize> = None;
    let mut i: usize = 0;
    proof {
        assert(line@.subrange(0, 0) =~= Seq::<u8>::empty());
    }
    while i < n
        invariant
            n == line@.len(),
            start <= i <= n,
            1 <= count <= i + 1,
            n < usize::MAX,
            fields(line@.subrange(0, i as int)).len() == count,
            fields(line@.subrange(0, i as int)).last() == line@.subrange(start as int, i as int),
            count > 1 ==> first == field_value(fields(line@.subrange(0, i as int))[0]),
            count > 2 ==> second == field_value(fields(line@.subrange(0, i as int))[1]),
            count > 3 ==> third == field_value(fields(line@.subrange(0, i as int))[2]),
        decreases n - i,
    {
        let ghost pre = line@.subrange(0, i as int);
        let ghost post = line@.subrange(0, i + 1);
        proof {
            assert(post.drop_last() =~= pre);
            assert(post.last() == line@[i as int]);
            lemma_fields_nonempty(pre);
        }
        if line[i] == 32 || line[i] == 9 {
            let v = parse_field(line, start, i);
            if count == 1 {
                first = v;
            } else if count == 2 {
                second = v;
            } else if count == 3 {
                third = v;
            }
            count = count + 1;
            start = i + 1;
            proof {
                assert(fields(post) == fields(pre).push(Seq::<u8>::empty()));
                assert(line@.subrange(start as int, i + 1) =~= Seq::<u8>::empty());
            }
        } else {
            proof {
                assert(fields(post) == fields(pre).update(
                    fields(pre).len() - 1,
                    fields(pre).last().push(line@[i as int]),
                ));
                assert(line@.subrange(start as int, i + 1) =~= line@.subrange(start as int, i as int).push(
                    line@[i as int],
                ));
            }
        }
        i = i + 1;
    }
    let last = parse_field(line, start, n);
    proof {
        assert(line@.subrange(0, n as int) =~= line@);
    }
    if count == 1 {
        first = last;
    } else if count == 2 {
        second = last;
    } else if count == 3 {
        third = last;
    }
    if count < 2 {
        return None;
    }
    match (first, second) {
        (Some(a), Some(b)) => {
            if count >= 3 {
                match third {
                    Some(w) => Some((a, b, Some(w))),
                    None => None,
                }
            } else {
                Some((a, b, None))
            }
        },
        _ => None,
    }
}

/// The edges of the lines of an edge-list file, in order; `None` as soon
/// as a line stands for no edge.
pub fn edge_list_from_lines(lines: &Vec<Vec<u8>>) -> (r: Option<EdgeList>)
    requires
        forall|i: int| 0 <= i < lines@.len() ==> #[trigger] lines@[i]@.len() < usize::MAX,
    ensures
        match r {
            Some(list) => list@.len() == lines@.len() && forall|i: int|
                0 <= i < lines@.len() ==> edge_of_line(#[trigger] lines@[i]@) == Some(list@[i]),
            None => exists|i: int| 0 <= i < lines@.len() && edge_of_line(#[trigger] lines@[i]@) is None,
        },
{
    let mut edge_list: EdgeList = Vec::new();
    let mut i: usize = 0;
    while i < lines.len()
        invariant
            i <= lines@.len(),
            edge_list@.len() == i,
            forall|k: int| 0 <= k < lines@.len() ==> #[trigger] lines@[k]@.len() < usize::MAX,
            forall|k: int| 0 <= k < i ==> edge_of_line(#[trigger] lines@[k]@) == Some(edge_list@[k]),
        decreases lines@.len() - i,
    {
        match parse_edge_line(lines[i].as_slice()) {
            Some(e) => edge_list.push(e),
            None => {
                return None;
            },
        }
        i = i + 1;
    }
    Some(edge_list)
}

} // verus!
