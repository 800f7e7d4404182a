use crate::puzzle::OrderConstraint;
use crate::relation::Relation;
use vstd::prelude::*;

verus! {

/// Space, tab, line feed, vertical tab, form feed, carriage return.
pub open spec fn is_blank(b: u8) -> bool {
    b == 32 || (9 <= b && b <= 13)
}

pub open spec fn is_digit(b: u8) -> bool {
    48 <= b && b <= 57
}

/// The leading blanks taken off.
pub open spec fn trim_start(s: Seq<u8>) -> Seq<u8>
    decreases s.len(),
{
    if s.len() > 0 && is_blank(s[0]) {
        trim_start(s.drop_first())
    } else {
        s
    }
}

/// The trailing blanks taken off.
pub open spec fn trim_end(s: Seq<u8>) -> Seq<u8>
    decreases s.len(),
{
    if s.len() > 0 && is_blank(s.last()) {
        trim_end(s.drop_last())
    } else {
        s
    }
}

/// The fields of `s` between single spaces; two spaces in a row make an empty field.
pub open spec fn split_spaces(s: Seq<u8>) -> Seq<Seq<u8>>
    decreases s.len(),
{
    if s.len() == 0 {
        seq![Seq::empty()]
    } else if s.last() == 32 {
        split_spaces(s.drop_last()).push(Seq::empty())
    } else {
        let f = split_spaces(s.drop_last());
        f.update(f.len() - 1, f.last().push(s.last()))
    }
}

/// The number that a string of decimal digits denotes.
pub open spec fn digits_value(d: Seq<u8>) -> int
    decreases d.len(),
{
    if d.len() == 0 {
        0
    } else {
        digits_value(d.drop_last()) * 10 + (d.last() - 48)
    }
}

/// A field without its leading `+`, if it has one.
pub open spec fn unsigned_part(f: Seq<u8>) -> Seq<u8> {
    if f.len() > 0 && f[0] == 43 {
        f.drop_first()
    } else {
        f
    }
}

/// Whether `d` is digits only and denotes a value that fits in a `u32`.
pub open spec fn fits(d: Seq<u8>) -> bool {
    &&& forall|i: int| 0 <= i < d.len() ==> is_digit(#[trigger] d[i])
    &&& digits_value(d) <= u32::MAX
}

/// A field read as a number: an optional `+` and one or more digits denoting a value
/// that fits in a `u32`; any other field reads as 0.
pub open spec fn field_value(f: Seq<u8>) -> u32 {
    let d = unsigned_part(f);
    if d.len() > 0 && fits(d) {
        digits_value(d) as u32
    } else {
        0
    }
}

/// The numbers of a line: blanks at either end dropped, then each space-separated
/// field read by `field_value`.
pub open spec fn numbers_of(line: Seq<u8>) -> Seq<u32> {
    split_spaces(trim_end(trim_start(line))).map_values(|f: Seq<u8>| field_value(f))
}

proof fn lemma_split_nonempty(s: Seq<u8>)
    ensures
        split_spaces(s).len() >= 1,
    decreases s.len(),
{
    if s.len() > 0 {
        lemma_split_nonempty(s.drop_last());
    }
}

proof fn lemma_digits_grow(d: Seq<u8>, b: u8)
    requires
        is_digit(b),
    ensures
        digits_value(d.push(b)) == digits_value(d) * 10 + (b - 48),
{
    assert(d.push(b).drop_last() =~= d);
}

proof fn lemma_digits_nonneg(d: Seq<u8>)
    requires
        forall|i: int| 0 <= i < d.len() ==> is_digit(#[trigger] d[i]),
    ensures
        digits_value(d) >= 0,
    decreases d.len(),
{
    if d.len() > 0 {
        lemma_digits_nonneg(d.drop_last());
        assert(is_digit(d[d.len() - 1]));
    }
}

proof fn lemma_unsigned_push(f: Seq<u8>, b: u8)
    requires
        f.len() > 0 || b != 43,
    ensures
        unsigned_part(f.push(b)) == unsigned_part(f).push(b),
{
    if f.len() > 0 {
        assert(f.push(b)[0] == f[0]);
        if f[0] == 43 {
            assert(f.push(b).drop_first() =~= f.drop_first().push(b));
        }
    }
}

/// What is known of the field read so far: `value` is its number while `ok` holds,
/// and `ok` says the digits after an optional `+` fit in a `u32`.
spec fn reading(cur: Seq<u8>, value: u64, ok: bool, digits: usize) -> bool {
    let d = unsigned_part(cur);
    &&& digits == d.len()
    &&& (ok <==> fits(d))
    &&& (ok ==> value == digits_value(d))
}

/// The numbers of `line`, read as `numbers_of` says.
pub fn parse_numbers(line: &Vec<u8>) -> (r: Vec<u32>)
    ensures
        r@ == numbers_of(line@),
{
    let ghost s = line@;
    let mut lo: usize = 0;
    assert(s.subrange(0, s.len() as int) =~= s);
    while lo < line.len() && (line[lo] == 32 || (9 <= line[lo] && line[lo] <= 13))
        invariant
            s == line@,
            lo <= s.len(),
            trim_start(s) == trim_start(s.subrange(lo as int, s.len() as int)),
        decreases s.len() - lo,
    {
        assert(s.subrange(lo as int, s.len() as int)[0] == s[lo as int]);
        assert(s.subrange(lo as int, s.len() as int).drop_first() =~= s.subrange(lo + 1, s.len() as int));
        lo = lo + 1;
    }
    let ghost started = s.subrange(lo as int, s.len() as int);
    assert(trim_start(s) == started);
    let mut hi: usize = line.len();
    while hi > lo && (line[hi - 1] == 32 || (9 <= line[hi - 1] && line[hi - 1] <= 13))
        invariant
            s == line@,
            lo <= hi <= s.len(),
            started == s.subrange(lo as int, s.len() as int),
            trim_end(started) == trim_end(s.subrange(lo as int, hi as int)),
        decreases hi,
    {
        assert(s.subrange(lo as int, hi as int).last() == s[hi - 1]);
        assert(s.subrange(lo as int, hi as int).drop_last() =~= s.subrange(lo as int, hi - 1));
        hi = hi - 1;
    }
    let ghost t = s.subrange(lo as int, hi as int);
    assert(trim_end(started) == t) by {
        let u = s.subrange(lo as int, hi as int);
        if u.len() > 0 {
            assert(u.last() == s[hi - 1]);
        }
    }
    let mut out: Vec<u32> = Vec::new();
    let mut value: u64 = 0;
    let mut ok = true;
    let mut digits: usize = 0;
    let mut len: usize = 0;
    let mut i: usize = lo;
    proof {
        assert(t.subrange(0, 0) =~= Seq::<u8>::empty());
        assert(unsigned_part(Seq::<u8>::empty()) =~= Seq::<u8>::empty());
    }
    while i < hi
        invariant
            s == line@,
            lo <= i <= hi <= s.len(),
            t == s.subrange(lo as int, hi as int),
            split_spaces(t.subrange(0, i - lo)).len() >= 1,
            out@ == split_spaces(t.subrange(0, i - lo)).drop_last().map_values(|f: Seq<u8>| field_value(f)),
            len == split_spaces(t.subrange(0, i - lo)).last().len(),
            len <= i - lo,
            digits <= len,
            reading(split_spaces(t.subrange(0, i - lo)).last(), value, ok, digits),
        decreases hi - i,
    {
        let b = line[i];
        let ghost pre = t.subrange(0, i - lo);
        let ghost next = t.subrange(0, i + 1 - lo);
        proof {
            assert(next.drop_last() =~= pre);
            assert(next.last() == t[i - lo]);
            assert(t[i - lo] == s[i as int]);
            lemma_split_nonempty(pre);
        }
        let ghost fields = split_spaces(pre);
        let ghost cur = fields.last();
        if b == 32 {
            let n = if ok && digits > 0 { value as u32 } else { 0 };
            out.push(n);
            value = 0;
            ok = true;
            digits = 0;
            len = 0;
            proof {
                assert(split_spaces(next) == fields.push(Seq::empty()));
                assert(split_spaces(next).drop_last() =~= fields);
                assert(fields =~= fields.drop_last().push(cur));
                assert(out@ =~= split_spaces(next).drop_last().map_values(|f: Seq<u8>| field_value(f)));
                assert(unsigned_part(Seq::<u8>::empty()) =~= Seq::<u8>::empty());
            }
        } else {
            let ghost grown = cur.push(b);
            proof {
                assert(split_spaces(next) == fields.update(fields.len() - 1, grown));
                assert(split_spaces(next).drop_last() =~= fields.drop_last());
                assert(split_spaces(next).last() == grown);
            }
            if len == 0 && b == 43 {
                proof {
                    assert(cur.len() == 0);
                    assert(grown =~= seq![43u8]);
                    assert(unsigned_part(grown) =~= Seq::<u8>::empty());
                }
            } else {
                proof {
                    lemma_unsigned_push(cur, b);
                }
                let ghost d = unsigned_part(cur);
                if ok && 48 <= b && b <= 57 {
                    proof {
                        lemma_digits_grow(d, b);
                        assert forall|k: int| 0 <= k < d.push(b).len() implies is_digit(#[trigger] d.push(b)[k]) by {
                            if k < d.len() {
                                assert(d.push(b)[k] == d[k]);
                            }
                        }
                    }
                    value = value * 10 + (b - 48) as u64;
                    if value > 0xffff_ffff {
                        ok = false;
                    }
                } else {
                    proof {
                        if !is_digit(b) {
                            assert(!is_digit(d.push(b)[d.len() as int]));
                        } else {
                            assert(!fits(d));
                            if forall|k: int| 0 <= k < d.len() ==> is_digit(#[trigger] d[k]) {
                                lemma_digits_nonneg(d);
                                lemma_digits_grow(d, b);
                            } else {
                                let k = choose|k: int| 0 <= k < d.len() && !is_digit(#[trigger] d[k]);
                                assert(d.push(b)[k] == d[k]);
                            }
                        }
                    }
                    ok = false;
                }
                digits = digits + 1;
            }
            len = len + 1;
        }
        i = i + 1;
    }
    proof {
        assert(t.subrange(0, hi - lo) =~= t);
        lemma_split_nonempty(t);
    }
    let n = if ok && digits > 0 { value as u32 } else { 0 };
    out.push(n);
    proof {
        let fields = split_spaces(t);
        assert(fields =~= fields.drop_last().push(fields.last()));
        assert(out@ =~= fields.map_values(|f: Seq<u8>| field_value(f)));
    }
    out
}

/// A restriction line's fields `r1 c1 r2 c2`, rows and columns counted from 1, as the
/// constraint that cell `(r1, c1)` is less than cell `(r2, c2)`; `None` unless there
/// are at least four fields and each lies in `1..=dim`.
pub fn restriction_from_fields(fields: &Vec<u32>, dim: usize) -> (r: Option<OrderConstraint>)
    ensures
        r is Some <==> fields@.len() >= 4 && forall|k: int| 0 <= k < 4 ==> 1 <= #[trigger] fields@[k] <= dim,
        r matches Some(oc) ==> {
            &&& oc.row_a == fields@[0] - 1
            &&& oc.col_a == fields@[1] - 1
            &&& oc.row_b == fields@[2] - 1
            &&& oc.col_b == fields@[3] - 1
            &&& oc.relation == Relation::LessThan
        },
{
    if fields.len() < 4 {
        return None;
    }
    let mut k: usize = 0;
    while k < 4
        invariant
            fields@.len() >= 4,
            k <= 4,
            forall|j: int| 0 <= j < k ==> 1 <= #[trigger] fields@[j] <= dim,
        decreases 4 - k,
    {
        if fields[k] == 0 || fields[k] as usize > dim {
            return None;
        }
        k = k + 1;
    }
    Some(OrderConstraint {
        row_a: (fields[0] - 1) as usize,
        col_a: (fields[1] - 1) as usize,
        row_b: (fields[2] - 1) as usize,
        col_b: (fields[3] - 1) as usize,
        relation: Relation::LessThan,
    })
}

} // verus!
