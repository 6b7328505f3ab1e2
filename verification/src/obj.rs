//! The mesh text format: a line-oriented indexed triangle format.
//!
//! A document is a sequence of lines.  A line starting with `#` is a
//! comment; otherwise its first whitespace-separated token names the
//! record: `v` a vertex position, `vt` a texture coordinate, `vn` a vertex
//! normal, `f` a triangle whose corners reference earlier records by
//! 1-based index (negative indices count back from the end).  Anything
//! else is ignored.  `load` folds the lines into the list of triangles or
//! reports the first failing record.

use vstd::prelude::*;

use crate::mesh::{Scalar, Triangle, Vertex};

verus! {

pub open spec fn is_space(b: u8) -> bool {
    b == 32 || b == 9 || b == 13
}

/// The index of the first `sep` in `t`, or `t.len()` when there is none.
pub open spec fn sep_pos(t: Seq<u8>, sep: u8) -> nat
    decreases t.len(),
{
    if t.len() == 0 {
        0
    } else if t[0] == sep {
        0
    } else {
        1 + sep_pos(t.drop_first(), sep)
    }
}

/// The index of the first whitespace byte in `t`, or `t.len()`.
pub open spec fn space_pos(t: Seq<u8>) -> nat
    decreases t.len(),
{
    if t.len() == 0 {
        0
    } else if is_space(t[0]) {
        0
    } else {
        1 + space_pos(t.drop_first())
    }
}

proof fn lemma_sep_pos_le(t: Seq<u8>, sep: u8)
    ensures
        sep_pos(t, sep) <= t.len(),
    decreases t.len(),
{
    if t.len() > 0 && t[0] != sep {
        lemma_sep_pos_le(t.drop_first(), sep);
    }
}

proof fn lemma_space_pos_le(t: Seq<u8>)
    ensures
        space_pos(t) <= t.len(),
    decreases t.len(),
{
    if t.len() > 0 && !is_space(t[0]) {
        lemma_space_pos_le(t.drop_first());
    }
}

/// Split `t` at every `sep`, keeping empty segments: one segment more than
/// there are separators.
pub open spec fn split_on(t: Seq<u8>, sep: u8) -> Seq<Seq<u8>>
    decreases t.len()
        via split_on_dec
{
    let k = sep_pos(t, sep) as int;
    if k == t.len() {
        seq![t]
    } else {
        seq![t.take(k)] + split_on(t.skip(k + 1), sep)
    }
}

#[via_fn]
proof fn split_on_dec(t: Seq<u8>, sep: u8) {
    lemma_sep_pos_le(t, sep);
}

/// The maximal runs of non-whitespace bytes in `t`, in order.
pub open spec fn tokens_of(t: Seq<u8>) -> Seq<Seq<u8>>
    decreases t.len()
        via tokens_of_dec
{
    if t.len() == 0 {
        Seq::empty()
    } else if is_space(t[0]) {
        tokens_of(t.drop_first())
    } else {
        let k = space_pos(t) as int;
        seq![t.take(k)] + tokens_of(t.skip(k))
    }
}

#[via_fn]
proof fn tokens_of_dec(t: Seq<u8>) {
    lemma_space_pos_le(t);
    if t.len() > 0 && !is_space(t[0]) {
        assert(space_pos(t) == 1 + space_pos(t.drop_first()));
    }
}

/// `sep_pos` finds exactly the first separator.
proof fn lemma_sep_pos(t: Seq<u8>, sep: u8, k: int)
    requires
        0 <= k <= t.len(),
        forall|i: int| 0 <= i < k ==> t[i] != sep,
        k < t.len() ==> t[k] == sep,
    ensures
        sep_pos(t, sep) == k,
    decreases t.len(),
{
    if t.len() > 0 && t[0] != sep {
        lemma_sep_pos(t.drop_first(), sep, k - 1);
    }
}

/// `space_pos` finds exactly the first whitespace byte.
proof fn lemma_space_pos(t: Seq<u8>, k: int)
    requires
        0 <= k <= t.len(),
        forall|i: int| 0 <= i < k ==> !is_space(t[i]),
        k < t.len() ==> is_space(t[k]),
    ensures
        space_pos(t) == k,
    decreases t.len(),
{
    if t.len() > 0 && !is_space(t[0]) {
        lemma_space_pos(t.drop_first(), k - 1);
    }
}

/// Split a byte string at every `sep`.
pub fn split_byte(t: &[u8], sep: u8) -> (r: Vec<Vec<u8>>)
    ensures
        r@.map_values(|v: Vec<u8>| v@) == split_on(t@, sep),
{
    let mut out: Vec<Vec<u8>> = Vec::new();
    let mut cur: Vec<u8> = Vec::new();
    let ghost mut seg_start: int = 0;
    let mut i: usize = 0;
    proof {
        assert(t@.skip(0) =~= t@);
        assert(cur@ =~= t@.subrange(0, 0));
        assert(out@.map_values(|v: Vec<u8>| v@) =~= Seq::<Seq<u8>>::empty());
        assert(Seq::<Seq<u8>>::empty() + split_on(t@, sep) =~= split_on(t@, sep));
    }
    while i < t.len()
        invariant
            0 <= seg_start <= i <= t@.len(),
            cur@ == t@.subrange(seg_start, i as int),
            forall|m: int| seg_start <= m < i ==> t@[m] != sep,
            split_on(t@, sep) == out@.map_values(|v: Vec<u8>| v@) + split_on(
                t@.skip(seg_start),
                sep,
            ),
        decreases t@.len() - i,
    {
        let b = t[i];
        if b == sep {
            proof {
                let rest = t@.skip(seg_start);
                assert(forall|m: int|
                    0 <= m < rest.len() ==> rest[m] == #[trigger] t@[m + seg_start]);
                lemma_sep_pos(rest, sep, i - seg_start);
                assert(rest.take(i - seg_start) =~= t@.subrange(seg_start, i as int));
                assert(rest.skip(i - seg_start + 1) =~= t@.skip(i + 1));
                assert(split_on(rest, sep) == seq![cur@] + split_on(t@.skip(i + 1), sep));
            }
            let ghost old_map = out@.map_values(|v: Vec<u8>| v@);
            out.push(cur);
            cur = Vec::new();
            proof {
                assert(out@.map_values(|v: Vec<u8>| v@) =~= old_map.push(out@.last()@));
                assert(old_map + (seq![out@.last()@] + split_on(t@.skip(i + 1), sep)) =~= (old_map
                    + seq![out@.last()@]) + split_on(t@.skip(i + 1), sep));
                assert(old_map.push(out@.last()@) =~= old_map + seq![out@.last()@]);
                seg_start = i + 1;
                assert(cur@ =~= t@.subrange(seg_start, i + 1));
            }
        } else {
            cur.push(b);
            proof {
                assert(cur@ =~= t@.subrange(seg_start, i + 1));
            }
        }
        i += 1;
    }
    proof {
        let rest = t@.skip(seg_start);
        assert(forall|m: int|
            0 <= m < rest.len() ==> rest[m] == #[trigger] t@[m + seg_start]);
        lemma_sep_pos(rest, sep, t@.len() - seg_start);
        assert(rest.take(t@.len() - seg_start) =~= rest);
        assert(cur@ =~= rest);
        assert(split_on(rest, sep) == seq![cur@]);
    }
    let ghost old_map = out@.map_values(|v: Vec<u8>| v@);
    out.push(cur);
    proof {
        assert(out@.map_values(|v: Vec<u8>| v@) =~= old_map.push(out@.last()@));
        assert(old_map.push(out@.last()@) =~= old_map + seq![out@.last()@]);
    }
    out
}

fn is_space_exec(b: u8) -> (r: bool)
    ensures
        r == is_space(b),
{
    b == 32 || b == 9 || b == 13
}

/// Split a line into its whitespace-separated tokens.
pub fn tokenize(t: &[u8]) -> (r: Vec<Vec<u8>>)
    ensures
        r@.map_values(|v: Vec<u8>| v@) == tokens_of(t@),
{
    let mut out: Vec<Vec<u8>> = Vec::new();
    let mut i: usize = 0;
    proof {
        assert(t@.skip(0) =~= t@);
        assert(out@.map_values(|v: Vec<u8>| v@) =~= Seq::<Seq<u8>>::empty());
        assert(Seq::<Seq<u8>>::empty() + tokens_of(t@) =~= tokens_of(t@));
    }
    while i < t.len()
        invariant
            i <= t@.len(),
            tokens_of(t@) == out@.map_values(|v: Vec<u8>| v@) + tokens_of(t@.skip(i as int)),
        decreases t@.len() - i,
    {
        if is_space_exec(t[i]) {
            proof {
                assert(t@.skip(i as int).drop_first() =~= t@.skip(i + 1));
            }
            i += 1;
        } else {
            let ghost tok_start = i as int;
            let mut tok: Vec<u8> = Vec::new();
            proof {
                assert(tok@ =~= t@.subrange(tok_start, tok_start));
            }
            while i < t.len()
                invariant
                    0 <= tok_start <= i <= t@.len(),
                    tok_start < t@.len(),
                    !is_space(t@[tok_start]),
                    tok@ == t@.subrange(tok_start, i as int),
                    forall|m: int| tok_start <= m < i ==> !is_space(t@[m]),
                ensures
                    tok_start < i <= t@.len(),
                    tok@ == t@.subrange(tok_start, i as int),
                    forall|m: int| tok_start <= m < i ==> !is_space(t@[m]),
                    i < t@.len() ==> is_space(t@[i as int]),
                decreases t@.len() - i,
            {
                if is_space_exec(t[i]) {
                    break;
                }
                tok.push(t[i]);
                proof {
                    assert(tok@ =~= t@.subrange(tok_start, i + 1));
                }
                i += 1;
            }
            proof {
                let rest = t@.skip(tok_start);
                assert(forall|m: int|
                    0 <= m < rest.len() ==> rest[m] == #[trigger] t@[m + tok_start]);
                lemma_space_pos(rest, i - tok_start);
                assert(rest.take(i - tok_start) =~= t@.subrange(tok_start, i as int));
                assert(rest.skip(i - tok_start) =~= t@.skip(i as int));
                assert(tokens_of(rest) == seq![tok@] + tokens_of(t@.skip(i as int)));
            }
            let ghost old_map = out@.map_values(|v: Vec<u8>| v@);
            out.push(tok);
            proof {
                assert(out@.map_values(|v: Vec<u8>| v@) =~= old_map.push(out@.last()@));
                assert(old_map.push(out@.last()@) =~= old_map + seq![out@.last()@]);
                assert(old_map + (seq![out@.last()@] + tokens_of(t@.skip(i as int))) =~= (old_map
                    + seq![out@.last()@]) + tokens_of(t@.skip(i as int)));
            }
        }
    }
    proof {
        assert(t@.skip(t@.len() as int) =~= Seq::<u8>::empty());
        assert(out@.map_values(|v: Vec<u8>| v@) + Seq::<Seq<u8>>::empty() =~= out@.map_values(
            |v: Vec<u8>| v@,
        ));
    }
    out
}

pub open spec fn is_digit(b: u8) -> bool {
    48 <= b && b <= 57
}

pub open spec fn all_digits(s: Seq<u8>) -> bool {
    forall|i: int| 0 <= i < s.len() ==> is_digit(#[trigger] s[i])
}

/// The value of a string of decimal digits.
pub open spec fn digits_val(s: Seq<u8>) -> int
    decreases s.len(),
{
    if s.len() == 0 {
        0
    } else {
        digits_val(s.drop_last()) * 10 + (s.last() - 48)
    }
}

/// What a signed decimal token denotes: an optional `+` or `-` sign, then
/// one or more digits; anything else, or a value outside `isize`, denotes
/// nothing.
pub open spec fn int_token_val(t: Seq<u8>) -> Option<int> {
    let ds = if t.len() > 0 && (t[0] == 43 || t[0] == 45) {
        t.drop_first()
    } else {
        t
    };
    let sign: int = if t.len() > 0 && t[0] == 45 {
        -1
    } else {
        1
    };
    if ds.len() > 0 && all_digits(ds) {
        Some(sign * digits_val(ds))
    } else {
        None
    }
}

pub open spec fn spec_parse_isize(t: Seq<u8>) -> Option<isize> {
    match int_token_val(t) {
        Some(v) => if isize::MIN <= v && v <= isize::MAX {
            Some(v as isize)
        } else {
            None
        },
        None => None,
    }
}

proof fn lemma_digits_val_nonneg(s: Seq<u8>)
    requires
        all_digits(s),
    ensures
        digits_val(s) >= 0,
    decreases s.len(),
{
    if s.len() > 0 {
        assert(all_digits(s.drop_last())) by {
            assert(forall|i: int|
                0 <= i < s.len() - 1 ==> s.drop_last()[i] == #[trigger] s[i]);
        }
        lemma_digits_val_nonneg(s.drop_last());
    }
}

/// With more digits the value can only grow.
proof fn lemma_digits_val_mono(s: Seq<u8>, k: int)
    requires
        all_digits(s),
        0 <= k <= s.len(),
    ensures
        digits_val(s.take(k)) <= digits_val(s),
    decreases s.len(),
{
    lemma_digits_val_nonneg(s);
    if k == s.len() {
        assert(s.take(k) =~= s);
    }
    if k < s.len() && s.len() > 0 {
        assert(all_digits(s.drop_last())) by {
            assert(forall|i: int|
                0 <= i < s.len() - 1 ==> s.drop_last()[i] == #[trigger] s[i]);
        }
        lemma_digits_val_mono(s.drop_last(), k);
        lemma_digits_val_nonneg(s.drop_last());
        assert(s.drop_last().take(k) =~= s.take(k));
        assert(digits_val(s) == digits_val(s.drop_last()) * 10 + (s.last() - 48));
        assert(digits_val(s.drop_last()) * 10 >= digits_val(s.drop_last())) by (nonlinear_arith)
            requires
                digits_val(s.drop_last()) >= 0,
        ;
    }
}

/// Parse a signed decimal token, as the face records reference their
/// vertices: an optional sign and digits, rejecting anything else and any
/// value outside `isize`.
pub fn parse_isize(t: &[u8]) -> (r: Option<isize>)
    ensures
        r == spec_parse_isize(t@),
{
    let n = t.len();
    let neg = n > 0 && t[0] == 45;
    let start: usize = if n > 0 && (t[0] == 43 || t[0] == 45) {
        1
    } else {
        0
    };
    let ghost ds = if start == 1 {
        t@.drop_first()
    } else {
        t@
    };
    proof {
        assert(ds.len() == n - start);
        assert(forall|i: int| 0 <= i < ds.len() ==> ds[i] == #[trigger] t@[i + start]);
    }
    if start >= n {
        proof {
            assert((if t@.len() > 0 && (t@[0] == 43 || t@[0] == 45) {
                t@.drop_first()
            } else {
                t@
            }) == ds);
            assert(ds.len() == 0);
            assert(int_token_val(t@) == None::<int>);
        }
        return None;
    }
    let limit: usize = if neg {
        (isize::MAX as usize) + 1
    } else {
        isize::MAX as usize
    };
    let mut acc: usize = 0;
    let mut i: usize = start;
    while i < n
        invariant
            start <= i <= n,
            n == t@.len(),
            start == 0 || start == 1,
            (start == 1) <==> (t@.len() > 0 && (t@[0] == 43 || t@[0] == 45)),
            neg <==> (t@.len() > 0 && t@[0] == 45),
            ds == (if start == 1 {
                t@.drop_first()
            } else {
                t@
            }),
            ds.len() == n - start,
            forall|m: int| 0 <= m < ds.len() ==> ds[m] == #[trigger] t@[m + start],
            all_digits(ds.take(i - start)),
            acc == digits_val(ds.take(i - start)),
            acc <= limit,
            neg ==> limit == (isize::MAX as usize) + 1,
            !neg ==> limit == isize::MAX as usize,
        decreases n - i,
    {
        let b = t[i];
        if b < 48 || b > 57 {
            proof {
                assert(ds[i - start] == t@[i as int]);
                assert(!is_digit(ds[i - start]));
                assert(!all_digits(ds));
                assert((if t@.len() > 0 && (t@[0] == 43 || t@[0] == 45) {
                    t@.drop_first()
                } else {
                    t@
                }) == ds);
                assert(int_token_val(t@) == None::<int>);
            }
            return None;
        }
        let d = (b - 48) as usize;
        let ghost pre = ds.take(i - start);
        proof {
            assert(pre.push(ds[i - start]) =~= ds.take(i - start + 1));
            assert(digits_val(ds.take(i - start + 1)) == acc * 10 + d) by {
                assert(ds.take(i - start + 1).drop_last() =~= pre);
                assert(ds.take(i - start + 1).last() == ds[i - start]);
            }
        }
        if acc > limit / 10 || (acc == limit / 10 && d > limit % 10) {
            proof {
                assert(acc * 10 + d > limit) by (nonlinear_arith)
                    requires
                        acc > limit / 10 || (acc == limit / 10 && d > limit % 10),
                        limit == limit / 10 * 10 + limit % 10,
                        0 <= limit % 10 < 10,
                        d < 10,
                        acc >= 0,
                ;
                assert((if t@.len() > 0 && (t@[0] == 43 || t@[0] == 45) {
                    t@.drop_first()
                } else {
                    t@
                }) == ds);
                if all_digits(ds) {
                    lemma_digits_val_mono(ds, i - start + 1);
                    assert(digits_val(ds) > limit);
                    assert(int_token_val(t@) == Some(
                        (if t@.len() > 0 && t@[0] == 45 {
                            -1int
                        } else {
                            1int
                        }) * digits_val(ds),
                    ));
                    if neg {
                        assert(int_token_val(t@) == Some(-1 * digits_val(ds)));
                        assert(-1 * digits_val(ds) == -digits_val(ds)) by (nonlinear_arith);
                        assert(isize::MIN as int == -(isize::MAX as int) - 1);
                        assert((isize::MAX as usize) as int == isize::MAX as int);
                        assert(digits_val(ds) > (isize::MAX as usize) + 1);
                        assert(-digits_val(ds) < isize::MIN);
                    } else {
                        assert(int_token_val(t@) == Some(1 * digits_val(ds)));
                        assert(1 * digits_val(ds) == digits_val(ds)) by (nonlinear_arith);
                        assert(digits_val(ds) > isize::MAX);
                    }
                    assert(spec_parse_isize(t@) == None::<isize>);
                } else {
                    assert(int_token_val(t@) == None::<int>);
                }
            }
            return None;
        }
        proof {
            assert(acc * 10 + d <= limit) by (nonlinear_arith)
                requires
                    acc <= limit / 10,
                    acc == limit / 10 ==> d <= limit % 10,
                    limit == limit / 10 * 10 + limit % 10,
                    0 <= limit % 10 < 10,
                    0 <= d < 10,
                    acc >= 0,
            ;
        }
        acc = acc * 10 + d;
        i += 1;
    }
    proof {
        assert(ds.take(ds.len() as int) =~= ds);
        assert(all_digits(ds));
        assert(acc == digits_val(ds));
        assert(ds.len() > 0);
        assert((if t@.len() > 0 && (t@[0] == 43 || t@[0] == 45) {
            t@.drop_first()
        } else {
            t@
        }) == ds);
        if neg {
            assert(int_token_val(t@) == Some(-1 * digits_val(ds)));
            assert(-1 * digits_val(ds) == -digits_val(ds)) by (nonlinear_arith);
            assert(-1 * digits_val(ds) == -(acc as int));
            assert(isize::MIN as int == -(isize::MAX as int) - 1);
            assert((isize::MAX as usize) as int == isize::MAX as int);
            assert(isize::MIN <= -(acc as int) <= isize::MAX);
        } else {
            assert(int_token_val(t@) == Some(1 * digits_val(ds)));
            assert(1 * digits_val(ds) == digits_val(ds)) by (nonlinear_arith);
            assert(isize::MIN <= acc as int <= isize::MAX);
        }
    }
    if neg {
        if acc == (isize::MAX as usize) + 1 {
            Some(isize::MIN)
        } else {
            Some(-(acc as isize))
        }
    } else {
        Some(acc as isize)
    }
}

/// Whether a 1-based index (negative counting back from the end) names a
/// slot in a list of length `len`.
pub open spec fn resolves(i: int, len: int) -> bool {
    if i < 0 {
        len + i >= 0
    } else {
        1 <= i && i <= len
    }
}

/// The slot such an index names.
pub open spec fn resolved(i: int, len: int) -> int {
    if i < 0 {
        len + i
    } else {
        i - 1
    }
}

/// Look up a 1-based index, a negative one counting back from the end of
/// the list.
pub fn index_wrap<T: Copy>(i: isize, vec: &Vec<T>) -> (r: T)
    requires
        resolves(i as int, vec@.len() as int),
    ensures
        r == vec@[resolved(i as int, vec@.len() as int)],
{
    if i < 0 {
        let mag: usize = if i == isize::MIN {
            (isize::MAX as usize) + 1
        } else {
            (-i) as usize
        };
        vec[vec.len() - mag]
    } else {
        vec[(i as usize) - 1]
    }
}

impl Scalar for isize {
    open spec fn spec_parse(t: Seq<u8>) -> Option<isize> {
        spec_parse_isize(t)
    }

    open spec fn spec_zero() -> isize {
        0
    }

    fn parse(t: &[u8]) -> (r: Option<isize>) {
        parse_isize(t)
    }

    fn zero() -> (r: isize) {
        0
    }
}

/// The parse of the caller's scalar type, as a function value.
pub open spec fn parse_fn<V: Scalar>() -> spec_fn(Seq<u8>) -> Option<V> {
    |t: Seq<u8>| V::spec_parse(t)
}

/// The scalars among the tokens, in order: a token that does not parse is
/// passed over.
pub open spec fn floats_of<V: Scalar>(toks: Seq<Seq<u8>>) -> Seq<V> {
    toks.filter_map(parse_fn::<V>())
}

/// What a position or normal record denotes: the first three scalar
/// tokens, or nothing when fewer than three parse.
pub open spec fn vec3_of<V: Scalar>(toks: Seq<Seq<u8>>) -> Option<[V; 3]> {
    let fs = floats_of::<V>(toks);
    if fs.len() >= 3 {
        Some([fs[0], fs[1], fs[2]])
    } else {
        None
    }
}

/// What a texture-coordinate record denotes: the first two scalar tokens.
pub open spec fn uv_of<V: Scalar>(toks: Seq<Seq<u8>>) -> Option<[V; 2]> {
    let fs = floats_of::<V>(toks);
    if fs.len() >= 2 {
        Some([fs[0], fs[1]])
    } else {
        None
    }
}

fn scan_floats<V: Scalar>(toks: &Vec<Vec<u8>>, start: usize) -> (r: Vec<V>)
    requires
        start <= toks@.len(),
    ensures
        r@ == floats_of::<V>(toks@.map_values(|t: Vec<u8>| t@).skip(start as int)),
{
    let ghost rest = toks@.map_values(|t: Vec<u8>| t@).skip(start as int);
    let mut vals: Vec<V> = Vec::new();
    let mut i: usize = start;
    proof {
        assert(rest.take(0) =~= Seq::<Seq<u8>>::empty());
        assert(vals@ =~= floats_of::<V>(rest.take(0)));
    }
    while i < toks.len()
        invariant
            start <= i <= toks@.len(),
            rest == toks@.map_values(|t: Vec<u8>| t@).skip(start as int),
            vals@ == floats_of::<V>(rest.take(i - start)),
        decreases toks@.len() - i,
    {
        let p = V::parse(toks[i].as_slice());
        proof {
            rest.lemma_filter_map_take_succ(parse_fn::<V>(), i - start);
            assert(rest[i - start] == toks@.map_values(|t: Vec<u8>| t@)[i as int]);
            assert(rest[i - start] == toks@[i as int]@);
            assert(parse_fn::<V>()(rest[i - start]) == V::spec_parse(toks@[i as int]@));
        }
        match p {
            Some(v) => {
                vals.push(v);
                proof {
                    assert(vals@ =~= floats_of::<V>(rest.take(i - start)) + seq![v]);
                }
            },
            None => {
            },
        }
        proof {
            assert(vals@ =~= floats_of::<V>(rest.take(i - start + 1)));
        }
        i += 1;
    }
    proof {
        assert(rest.take(rest.len() as int) =~= rest);
    }
    vals
}

/// Read a position or normal record's three scalars, passing over tokens
/// that do not parse.
pub fn parse_vec3<V: Scalar>(toks: &Vec<Vec<u8>>, start: usize) -> (r: Option<[V; 3]>)
    requires
        start <= toks@.len(),
    ensures
        r == vec3_of::<V>(toks@.map_values(|t: Vec<u8>| t@).skip(start as int)),
{
    let vals = scan_floats::<V>(toks, start);
    if vals.len() >= 3 {
        Some([vals[0], vals[1], vals[2]])
    } else {
        None
    }
}

/// Read a texture-coordinate record's two scalars, passing over tokens
/// that do not parse.
pub fn parse_uv<V: Scalar>(toks: &Vec<Vec<u8>>, start: usize) -> (r: Option<[V; 2]>)
    requires
        start <= toks@.len(),
    ensures
        r == uv_of::<V>(toks@.map_values(|t: Vec<u8>| t@).skip(start as int)),
{
    let vals = scan_floats::<V>(toks, start);
    if vals.len() >= 2 {
        Some([vals[0], vals[1]])
    } else {
        None
    }
}

fn resolves_exec(i: isize, len: usize) -> (r: bool)
    ensures
        r == resolves(i as int, len as int),
{
    if i < 0 {
        let mag: usize = if i == isize::MIN {
            (isize::MAX as usize) + 1
        } else {
            (-i) as usize
        };
        mag <= len
    } else {
        i >= 1 && (i as usize) <= len
    }
}

/// What one corner reference of a face record denotes.  The position index
/// must parse and resolve; a texture-coordinate or normal component that
/// does not parse falls back (zero coordinate, absent normal), but one
/// that parses out of range fails the face.
pub open spec fn face_uv_of<V: Scalar>(comps: Seq<Seq<u8>>, coords: Seq<[V; 2]>) -> Option<
    Option<[V; 2]>,
> {
    if comps.len() < 2 {
        Some(None)
    } else {
        match spec_parse_isize(comps[1]) {
            None => Some(None),
            Some(ci) => if resolves(ci as int, coords.len() as int) {
                Some(Some(coords[resolved(ci as int, coords.len() as int)]))
            } else {
                None
            },
        }
    }
}

pub open spec fn face_normal_of<V: Scalar>(comps: Seq<Seq<u8>>, norms: Seq<[V; 3]>) -> Option<
    Option<[V; 3]>,
> {
    if comps.len() < 3 {
        Some(None)
    } else {
        match spec_parse_isize(comps[2]) {
            None => Some(None),
            Some(ni) => if resolves(ni as int, norms.len() as int) {
                Some(Some(norms[resolved(ni as int, norms.len() as int)]))
            } else {
                None
            },
        }
    }
}

pub open spec fn face_vertex_of<V: Scalar>(
    tok: Seq<u8>,
    verts: Seq<[V; 3]>,
    coords: Seq<[V; 2]>,
    norms: Seq<[V; 3]>,
) -> Option<Vertex<V>> {
    let comps = split_on(tok, 47);
    match spec_parse_isize(comps[0]) {
        None => None,
        Some(pi) => if !resolves(pi as int, verts.len() as int) {
            None
        } else {
            match (face_uv_of::<V>(comps, coords), face_normal_of::<V>(comps, norms)) {
                (Some(uvo), Some(no)) => Some(
                    Vertex {
                        pos: verts[resolved(pi as int, verts.len() as int)],
                        uv: match uvo {
                            Some(u) => u,
                            None => [V::spec_zero(), V::spec_zero()],
                        },
                        normal: no,
                    },
                ),
                _ => None,
            }
        },
    }
}

/// What a face record denotes: its first three corner references, each
/// resolved against the records seen so far.
pub open spec fn face_of<V: Scalar>(
    toks: Seq<Seq<u8>>,
    verts: Seq<[V; 3]>,
    coords: Seq<[V; 2]>,
    norms: Seq<[V; 3]>,
) -> Option<Triangle<V>> {
    if toks.len() < 3 {
        None
    } else {
        match (
            face_vertex_of::<V>(toks[0], verts, coords, norms),
            face_vertex_of::<V>(toks[1], verts, coords, norms),
            face_vertex_of::<V>(toks[2], verts, coords, norms),
        ) {
            (Some(a), Some(b), Some(c)) => Some(Triangle { verts: [a, b, c] }),
            _ => None,
        }
    }
}

fn parse_face_vertex<V: Scalar>(
    tok: &Vec<u8>,
    verts: &Vec<[V; 3]>,
    coords: &Vec<[V; 2]>,
    norms: &Vec<[V; 3]>,
) -> (r: Option<Vertex<V>>)
    ensures
        r == face_vertex_of::<V>(tok@, verts@, coords@, norms@),
{
    let comps = split_byte(tok.as_slice(), 47);
    proof {
        assert(comps@.map_values(|v: Vec<u8>| v@) == split_on(tok@, 47));
        assert(split_on(tok@, 47).len() >= 1);
        assert(comps@.len() == split_on(tok@, 47).len());
        assert(forall|k: int|
            0 <= k < comps@.len() ==> #[trigger] comps@[k]@ == split_on(tok@, 47)[k]);
    }
    let pi = match parse_isize(comps[0].as_slice()) {
        Some(x) => x,
        None => {
            return None;
        },
    };
    if !resolves_exec(pi, verts.len()) {
        return None;
    }
    let pos = index_wrap(pi, verts);
    let uv: Option<[V; 2]> = if comps.len() >= 2 {
        match parse_isize(comps[1].as_slice()) {
            Some(ci) => {
                if !resolves_exec(ci, coords.len()) {
                    return None;
                }
                Some(index_wrap(ci, coords))
            },
            None => None,
        }
    } else {
        None
    };
    let uvv: [V; 2] = match uv {
        Some(u) => u,
        None => [V::zero(), V::zero()],
    };
    let normal: Option<[V; 3]> = if comps.len() >= 3 {
        match parse_isize(comps[2].as_slice()) {
            Some(ni) => {
                if !resolves_exec(ni, norms.len()) {
                    return None;
                }
                Some(index_wrap(ni, norms))
            },
            None => None,
        }
    } else {
        None
    };
    Some(Vertex { pos, uv: uvv, normal })
}

/// Read a face record's first three corner references.
pub fn parse_triangle<V: Scalar>(
    toks: &Vec<Vec<u8>>,
    start: usize,
    verts: &Vec<[V; 3]>,
    coords: &Vec<[V; 2]>,
    norms: &Vec<[V; 3]>,
) -> (r: Option<Triangle<V>>)
    requires
        start <= toks@.len(),
    ensures
        r == face_of::<V>(
            toks@.map_values(|t: Vec<u8>| t@).skip(start as int),
            verts@,
            coords@,
            norms@,
        ),
{
    let ghost rest = toks@.map_values(|t: Vec<u8>| t@).skip(start as int);
    if toks.len() - start < 3 {
        return None;
    }
    proof {
        assert(rest[0] == toks@[start as int]@);
        assert(rest[1] == toks@[start as int + 1]@);
        assert(rest[2] == toks@[start as int + 2]@);
    }
    let a = parse_face_vertex::<V>(&toks[start], verts, coords, norms);
    let b = parse_face_vertex::<V>(&toks[start + 1], verts, coords, norms);
    let c = parse_face_vertex::<V>(&toks[start + 2], verts, coords, norms);
    match (a, b, c) {
        (Some(x), Some(y), Some(z)) => Some(Triangle { verts: [x, y, z] }),
        _ => None,
    }
}

#[derive(Clone, Copy, Debug, PartialEq, Eq, Structural)]
pub enum LoadError {
    BadVertex,
    BadTexCoord,
    BadNormal,
    BadFace,
}

/// How one line changes the records read so far, or fails.
pub open spec fn step_line<V: Scalar>(
    st: (Seq<[V; 3]>, Seq<[V; 2]>, Seq<[V; 3]>, Seq<Triangle<V>>),
    line: Seq<u8>,
) -> Result<(Seq<[V; 3]>, Seq<[V; 2]>, Seq<[V; 3]>, Seq<Triangle<V>>), LoadError> {
    if line.len() > 0 && line[0] == 35 {
        Ok(st)
    } else {
        let toks = tokens_of(line);
        if toks.len() == 0 {
            Ok(st)
        } else if toks[0] == seq![118u8] {
            match vec3_of::<V>(toks.skip(1)) {
                Some(v) => Ok((st.0.push(v), st.1, st.2, st.3)),
                None => Err(LoadError::BadVertex),
            }
        } else if toks[0] == seq![118u8, 116u8] {
            match uv_of::<V>(toks.skip(1)) {
                Some(v) => Ok((st.0, st.1.push(v), st.2, st.3)),
                None => Err(LoadError::BadTexCoord),
            }
        } else if toks[0] == seq![118u8, 110u8] {
            match vec3_of::<V>(toks.skip(1)) {
                Some(v) => Ok((st.0, st.1, st.2.push(v), st.3)),
                None => Err(LoadError::BadNormal),
            }
        } else if toks[0] == seq![102u8] {
            match face_of::<V>(toks.skip(1), st.0, st.1, st.2) {
                Some(t) => Ok((st.0, st.1, st.2, st.3.push(t))),
                None => Err(LoadError::BadFace),
            }
        } else {
            Ok(st)
        }
    }
}

/// The records after the first `n` lines, or the first failure among them.
pub open spec fn load_upto<V: Scalar>(lines: Seq<Seq<u8>>, n: int) -> Result<
    (Seq<[V; 3]>, Seq<[V; 2]>, Seq<[V; 3]>, Seq<Triangle<V>>),
    LoadError,
>
    decreases n,
{
    if n <= 0 {
        Ok((Seq::empty(), Seq::empty(), Seq::empty(), Seq::empty()))
    } else {
        match load_upto::<V>(lines, n - 1) {
            Err(e) => Err(e),
            Ok(st) => step_line::<V>(st, lines[n - 1]),
        }
    }
}

/// What a whole document denotes: its triangles, or its first failure.
pub open spec fn load_spec<V: Scalar>(text: Seq<u8>) -> Result<Seq<Triangle<V>>, LoadError> {
    let lines = split_on(text, 10);
    match load_upto::<V>(lines, lines.len() as int) {
        Ok(st) => Ok(st.3),
        Err(e) => Err(e),
    }
}

/// A failure stays: every longer prefix reports the same error.
proof fn lemma_load_err<V: Scalar>(lines: Seq<Seq<u8>>, n: int, m: int)
    requires
        0 <= n <= m,
        load_upto::<V>(lines, n) is Err,
    ensures
        load_upto::<V>(lines, m) == load_upto::<V>(lines, n),
    decreases m,
{
    if m > n {
        lemma_load_err::<V>(lines, n, m - 1);
    }
}

fn tok_is1(t: &Vec<u8>, a: u8) -> (r: bool)
    ensures
        r == (t@ == seq![a]),
{
    let r = t.len() == 1 && t[0] == a;
    proof {
        if r {
            assert(t@ =~= seq![a]);
        }
        if t@ == seq![a] {
            assert(t@.len() == 1 && t@[0] == a);
        }
    }
    r
}

fn tok_is2(t: &Vec<u8>, a: u8, b: u8) -> (r: bool)
    ensures
        r == (t@ == seq![a, b]),
{
    let r = t.len() == 2 && t[0] == a && t[1] == b;
    proof {
        if r {
            assert(t@ =~= seq![a, b]);
        }
        if t@ == seq![a, b] {
            assert(t@.len() == 2 && t@[0] == a && t@[1] == b);
        }
    }
    r
}

/// Fold a whole document into its triangles, or report the first record
/// that fails: an unreadable vertex, texture coordinate or normal, or a
/// face whose references do not resolve.
pub fn load<V: Scalar>(text: &[u8]) -> (r: Result<Vec<Triangle<V>>, LoadError>)
    ensures
        (match r {
            Ok(v) => load_spec::<V>(text@) == Ok::<Seq<Triangle<V>>, LoadError>(v@),
            Err(e) => load_spec::<V>(text@) == Err::<Seq<Triangle<V>>, LoadError>(e),
        }),
{
    let lines = split_byte(text, 10);
    let ghost lns = split_on(text@, 10);
    let mut verts: Vec<[V; 3]> = Vec::new();
    let mut coords: Vec<[V; 2]> = Vec::new();
    let mut norms: Vec<[V; 3]> = Vec::new();
    let mut tris: Vec<Triangle<V>> = Vec::new();
    let mut li: usize = 0;
    proof {
        assert(verts@ =~= Seq::<[V; 3]>::empty());
        assert(coords@ =~= Seq::<[V; 2]>::empty());
        assert(norms@ =~= Seq::<[V; 3]>::empty());
        assert(tris@ =~= Seq::<Triangle<V>>::empty());
    }
    while li < lines.len()
        invariant
            li <= lines@.len(),
            lines@.map_values(|v: Vec<u8>| v@) == lns,
            lns == split_on(text@, 10),
            load_upto::<V>(lns, li as int) == Ok::<
                (Seq<[V; 3]>, Seq<[V; 2]>, Seq<[V; 3]>, Seq<Triangle<V>>),
                LoadError,
            >((verts@, coords@, norms@, tris@)),
        decreases lines@.len() - li,
    {
        let ghost old_st = (verts@, coords@, norms@, tris@);
        proof {
            assert(lines@[li as int]@ == lns[li as int]);
        }
        let is_comment = lines[li].len() > 0 && lines[li][0] == 35;
        if !is_comment {
            let toks = tokenize(lines[li].as_slice());
            proof {
                assert(toks@.map_values(|v: Vec<u8>| v@) == tokens_of(lns[li as int]));
                assert(forall|k: int|
                    0 <= k < toks@.len() ==> #[trigger] toks@[k]@ == tokens_of(lns[li as int])[k]);
                assert(toks@.len() == tokens_of(lns[li as int]).len());
            }
            if toks.len() == 0 {
            } else if tok_is1(&toks[0], 118) {
                proof {
                    assert(toks@.map_values(|t: Vec<u8>| t@).skip(1) =~= tokens_of(
                        lns[li as int],
                    ).skip(1));
                }
                match parse_vec3::<V>(&toks, 1) {
                    Some(v) => {
                        verts.push(v);
                    },
                    None => {
                        proof {
                            assert(load_upto::<V>(lns, li + 1) == Err::<
                                (Seq<[V; 3]>, Seq<[V; 2]>, Seq<[V; 3]>, Seq<Triangle<V>>),
                                LoadError,
                            >(LoadError::BadVertex));
                            lemma_load_err::<V>(lns, li + 1, lns.len() as int);
                        }
                        return Err(LoadError::BadVertex);
                    },
                }
            } else if tok_is2(&toks[0], 118, 116) {
                proof {
                    assert(toks@.map_values(|t: Vec<u8>| t@).skip(1) =~= tokens_of(
                        lns[li as int],
                    ).skip(1));
                }
                match parse_uv::<V>(&toks, 1) {
                    Some(v) => {
                        coords.push(v);
                    },
                    None => {
                        proof {
                            assert(load_upto::<V>(lns, li + 1) == Err::<
                                (Seq<[V; 3]>, Seq<[V; 2]>, Seq<[V; 3]>, Seq<Triangle<V>>),
                                LoadError,
                            >(LoadError::BadTexCoord));
                            lemma_load_err::<V>(lns, li + 1, lns.len() as int);
                        }
                        return Err(LoadError::BadTexCoord);
                    },
                }
            } else if tok_is2(&toks[0], 118, 110) {
                proof {
                    assert(toks@.map_values(|t: Vec<u8>| t@).skip(1) =~= tokens_of(
                        lns[li as int],
                    ).skip(1));
                }
                match parse_vec3::<V>(&toks, 1) {
                    Some(v) => {
                        norms.push(v);
                    },
                    None => {
                        proof {
                            assert(load_upto::<V>(lns, li + 1) == Err::<
                                (Seq<[V; 3]>, Seq<[V; 2]>, Seq<[V; 3]>, Seq<Triangle<V>>),
                                LoadError,
                            >(LoadError::BadNormal));
                            lemma_load_err::<V>(lns, li + 1, lns.len() as int);
                        }
                        return Err(LoadError::BadNormal);
                    },
                }
            } else if tok_is1(&toks[0], 102) {
                proof {
                    assert(toks@.map_values(|t: Vec<u8>| t@).skip(1) =~= tokens_of(
                        lns[li as int],
                    ).skip(1));
                }
                match parse_triangle::<V>(&toks, 1, &verts, &coords, &norms) {
                    Some(t) => {
                        tris.push(t);
                    },
                    None => {
                        proof {
                            assert(load_upto::<V>(lns, li + 1) == Err::<
                                (Seq<[V; 3]>, Seq<[V; 2]>, Seq<[V; 3]>, Seq<Triangle<V>>),
                                LoadError,
                            >(LoadError::BadFace));
                            lemma_load_err::<V>(lns, li + 1, lns.len() as int);
                        }
                        return Err(LoadError::BadFace);
                    },
                }
            }
        }
        proof {
            assert(load_upto::<V>(lns, li + 1) == step_line::<V>(old_st, lns[li as int]));
            assert(load_upto::<V>(lns, li + 1) == Ok::<
                (Seq<[V; 3]>, Seq<[V; 2]>, Seq<[V; 3]>, Seq<Triangle<V>>),
                LoadError,
            >((verts@, coords@, norms@, tris@)));
        }
        li += 1;
    }
    proof {
        assert(li as int == lns.len());
    }
    Ok(tris)
}

} // verus!
