//! Small verified string utilities the parser is built from.

use vstd::prelude::*;

use crate::model;

verus! {

/// Executable twin of [`model::is_space`].
pub fn is_space_char(c: char) -> (r: bool)
    ensures
        r == model::is_space(c),
{
    c == ' ' || c == '\t' || c == '\n' || c == '\r' || c == '\u{b}' || c == '\u{c}'
}

/// Index of the first occurrence of `d` in `s` at or after `from`, or
/// `None` when there is none.
pub fn find_char_at(s: &str, d: char, from: usize) -> (r: Option<usize>)
    requires
        from <= s@.len(),
    ensures
        match r {
            Some(i) => from <= i < s@.len() && i == model::find_char(s@, d, from as int)
                && s@[i as int] == d,
            None => model::find_char(s@, d, from as int) == s@.len(),
        },
{
    let n: usize = s.unicode_len();
    let mut i: usize = from;
    while i < n
        invariant
            from <= i <= n,
            n == s@.len(),
            model::find_char(s@, d, from as int) == model::find_char(s@, d, i as int),
        decreases n - i,
    {
        if s.get_char(i) == d {
            return Some(i);
        }
        i = i + 1;
    }
    None
}

/// A pushed element maps through the view like any other: seen through
/// views, pushing a `String` pushes its `Seq<char>`.
proof fn lemma_views_push(v: Seq<String>, t: String)
    ensures
        v.push(t).map_values(|x: String| x@) == v.map_values(|x: String| x@).push(t@),
{
    assert(v.push(t).map_values(|x: String| x@) =~= v.map_values(|x: String| x@).push(t@));
}

/// Does `s` begin with the characters of `p`?
pub fn has_prefix(s: &str, p: &Vec<char>) -> (r: bool)
    ensures
        r == model::starts_with(s@, p@),
{
    let n: usize = s.unicode_len();
    let m: usize = p.len();
    if m > n {
        return false;
    }
    let mut i: usize = 0;
    while i < m
        invariant
            i <= m <= n,
            n == s@.len(),
            m == p@.len(),
            forall|j: int| 0 <= j < i ==> s@[j] == p@[j],
        decreases m - i,
    {
        if s.get_char(i) != p[i] {
            proof {
                assert(s@.subrange(0, m as int)[i as int] == s@[i as int]);
            }
            return false;
        }
        i = i + 1;
    }
    proof {
        assert(s@.subrange(0, m as int) =~= p@);
    }
    true
}

/// The pieces of `s` between occurrences of `'['`, in order, empties
/// included; `n` delimiters yield `n + 1` pieces.
pub fn split_segments(s: &str) -> (r: Vec<String>)
    ensures
        r@.map_values(|x: String| x@) == model::split_on(s@, '['),
{
    let n: usize = s.unicode_len();
    let mut segs: Vec<String> = Vec::new();
    let mut start: usize = 0;
    let mut i: usize = 0;
    proof {
        assert(s@.subrange(0, n as int) =~= s@);
        assert(s@.subrange(0, 0) =~= Seq::<char>::empty());
        assert(segs@.map_values(|x: String| x@) + model::split_on_acc(
            s@,
            '[',
            Seq::<char>::empty(),
        ) =~= model::split_on(s@, '['));
    }
    while i < n
        invariant
            start <= i <= n,
            n == s@.len(),
            model::split_on(s@, '[') == segs@.map_values(|x: String| x@) + model::split_on_acc(
                s@.subrange(i as int, n as int),
                '[',
                s@.subrange(start as int, i as int),
            ),
        decreases n - i,
    {
        let ghost rest = s@.subrange(i as int, n as int);
        let ghost cur = s@.subrange(start as int, i as int);
        let c = s.get_char(i);
        proof {
            assert(rest[0] == s@[i as int]);
            assert(rest.drop_first() =~= s@.subrange(i + 1, n as int));
        }
        if c == '[' {
            let piece = s.substring_char(start, i).to_owned();
            proof {
                assert(model::split_on_acc(rest, '[', cur) == seq![cur] + model::split_on_acc(
                    rest.drop_first(),
                    '[',
                    Seq::<char>::empty(),
                ));
                lemma_views_push(segs@, piece);
                assert(segs@.push(piece).map_values(|x: String| x@) + model::split_on_acc(
                    rest.drop_first(),
                    '[',
                    Seq::<char>::empty(),
                ) =~= segs@.map_values(|x: String| x@) + model::split_on_acc(rest, '[', cur));
                assert(Seq::<char>::empty() =~= s@.subrange(i + 1, i + 1));
            }
            segs.push(piece);
            i = i + 1;
            start = i;
        } else {
            proof {
                assert(model::split_on_acc(rest, '[', cur) == model::split_on_acc(
                    rest.drop_first(),
                    '[',
                    cur.push(s@[i as int]),
                ));
                assert(cur.push(s@[i as int]) =~= s@.subrange(start as int, i + 1));
            }
            i = i + 1;
        }
    }
    let last = s.substring_char(start, n).to_owned();
    proof {
        let ghost cur = s@.subrange(start as int, n as int);
        assert(s@.subrange(n as int, n as int) =~= Seq::<char>::empty());
        assert(model::split_on_acc(Seq::<char>::empty(), '[', cur) == seq![cur]);
        lemma_views_push(segs@, last);
        assert(segs@.push(last).map_values(|x: String| x@) =~= segs@.map_values(|x: String| x@)
            + seq![cur]);
    }
    segs.push(last);
    segs
}

/// The whitespace-separated tokens of `s`, in order.
pub fn ws_tokens(s: &str) -> (r: Vec<String>)
    ensures
        r@.map_values(|x: String| x@) == model::split_ws(s@),
{
    let n: usize = s.unicode_len();
    let mut toks: Vec<String> = Vec::new();
    let mut start: usize = 0;
    let mut i: usize = 0;
    proof {
        assert(s@.subrange(0, n as int) =~= s@);
        assert(s@.subrange(0, 0) =~= Seq::<char>::empty());
        assert(toks@.map_values(|x: String| x@) + model::split_ws_acc(
            s@,
            Seq::<char>::empty(),
        ) =~= model::split_ws(s@));
    }
    while i < n
        invariant
            start <= i <= n,
            n == s@.len(),
            model::split_ws(s@) == toks@.map_values(|x: String| x@) + model::split_ws_acc(
                s@.subrange(i as int, n as int),
                s@.subrange(start as int, i as int),
            ),
        decreases n - i,
    {
        let ghost rest = s@.subrange(i as int, n as int);
        let ghost cur = s@.subrange(start as int, i as int);
        let c = s.get_char(i);
        proof {
            assert(rest[0] == s@[i as int]);
            assert(rest.drop_first() =~= s@.subrange(i + 1, n as int));
        }
        if is_space_char(c) {
            if start < i {
                let piece = s.substring_char(start, i).to_owned();
                proof {
                    assert(model::split_ws_acc(rest, cur) == seq![cur] + model::split_ws_acc(
                        rest.drop_first(),
                        Seq::<char>::empty(),
                    ));
                    lemma_views_push(toks@, piece);
                    assert(toks@.push(piece).map_values(|x: String| x@) + model::split_ws_acc(
                        rest.drop_first(),
                        Seq::<char>::empty(),
                    ) =~= toks@.map_values(|x: String| x@) + model::split_ws_acc(rest, cur));
                }
                toks.push(piece);
            } else {
                proof {
                    assert(cur.len() == 0);
                    assert(model::split_ws_acc(rest, cur) == model::split_ws_acc(
                        rest.drop_first(),
                        Seq::<char>::empty(),
                    ));
                }
            }
            proof {
                assert(Seq::<char>::empty() =~= s@.subrange(i + 1, i + 1));
            }
            i = i + 1;
            start = i;
        } else {
            proof {
                assert(model::split_ws_acc(rest, cur) == model::split_ws_acc(
                    rest.drop_first(),
                    cur.push(s@[i as int]),
                ));
                assert(cur.push(s@[i as int]) =~= s@.subrange(start as int, i + 1));
            }
            i = i + 1;
        }
    }
    proof {
        assert(s@.subrange(n as int, n as int) =~= Seq::<char>::empty());
    }
    if start < n {
        let last = s.substring_char(start, n).to_owned();
        proof {
            let ghost cur = s@.subrange(start as int, n as int);
            assert(model::split_ws_acc(Seq::<char>::empty(), cur) == seq![cur]);
            lemma_views_push(toks@, last);
            assert(toks@.push(last).map_values(|x: String| x@) =~= toks@.map_values(
                |x: String| x@,
            ) + seq![cur]);
        }
        toks.push(last);
    } else {
        proof {
            let ghost cur = s@.subrange(start as int, n as int);
            assert(cur.len() == 0);
            assert(model::split_ws_acc(Seq::<char>::empty(), cur) == Seq::<Seq<char>>::empty());
            assert(toks@.map_values(|x: String| x@) + Seq::<Seq<char>>::empty() =~= toks@.map_values(
                |x: String| x@,
            ));
        }
    }
    toks
}

/// The text a tag segment emits: what stands strictly between the
/// segment's first `']'` and the following `']'` or the segment's end.
pub fn tag_text_str(s: &str) -> (r: String)
    ensures
        r@ == model::tag_text(s@),
{
    let n: usize = s.unicode_len();
    match find_char_at(s, ']', 0) {
        None => String::new(),
        Some(j1) => {
            match find_char_at(s, ']', j1 + 1) {
                Some(j2) => s.substring_char(j1 + 1, j2).to_owned(),
                None => s.substring_char(j1 + 1, n).to_owned(),
            }
        },
    }
}

/// The text a non-tag segment emits: the whole segment when it has no
/// `']'`, otherwise what a tag segment would emit.
pub fn literal_text_str(s: &str) -> (r: String)
    ensures
        r@ == model::literal_text(s@),
{
    match find_char_at(s, ']', 0) {
        None => s.to_owned(),
        Some(_) => tag_text_str(s),
    }
}

/// `s` with surrounding whitespace removed, as an owned string.
pub fn trim_str(s: &str) -> (r: String)
    ensures
        r@ == model::trim(s@),
{
    let n: usize = s.unicode_len();
    let mut a: usize = 0;
    while a < n
        invariant
            a <= n,
            n == s@.len(),
            forall|j: int| 0 <= j < a ==> model::is_space(#[trigger] s@[j]),
        ensures
            a <= n,
            forall|j: int| 0 <= j < a ==> model::is_space(#[trigger] s@[j]),
            a == n || !model::is_space(s@[a as int]),
        decreases n - a,
    {
        if !is_space_char(s.get_char(a)) {
            break;
        }
        a = a + 1;
    }
    proof {
        model::lemma_trim_front_subrange(s@, a as int);
    }
    if a == n {
        proof {
            assert(s@.subrange(a as int, n as int).len() == 0);
        }
        return String::new();
    }
    let mut b: usize = n - 1;
    while b > a
        invariant
            a <= b < n,
            n == s@.len(),
            !model::is_space(s@[a as int]),
            forall|j: int| b < j < n ==> model::is_space(#[trigger] s@[j]),
        ensures
            a <= b < n,
            forall|j: int| b < j < n ==> model::is_space(#[trigger] s@[j]),
            !model::is_space(s@[b as int]),
        decreases b,
    {
        if !is_space_char(s.get_char(b)) {
            break;
        }
        b = b - 1;
    }
    let r = s.substring_char(a, b + 1).to_owned();
    proof {
        let tf = s@.subrange(a as int, n as int);
        assert(forall|j: int| (b - a) < j < tf.len() ==> model::is_space(#[trigger] tf[j]));
        model::lemma_trim_back_subrange(tf, b - a);
        assert(tf.subrange(0, b - a + 1) =~= s@.subrange(a as int, b + 1));
    }
    r
}

/// What `str::parse::<u32>` yields on `s`.
pub fn parse_u32_str(s: &str) -> (r: Option<u32>)
    ensures
        r == model::parse_u32(s@),
{
    let n: usize = s.unicode_len();
    let start: usize = if n > 0 && s.get_char(0) == '+' {
        1
    } else {
        0
    };
    let ghost t = if s@.len() > 0 && s@[0] == '+' {
        s@.drop_first()
    } else {
        s@
    };
    proof {
        assert(t =~= s@.subrange(start as int, n as int));
    }
    if start == n {
        return None;
    }
    let mut i: usize = start;
    let mut val: u64 = 0;
    while i < n
        invariant
            start <= i <= n,
            n == s@.len(),
            t == s@.subrange(start as int, n as int),
            t == (if s@.len() > 0 && s@[0] == '+' {
                s@.drop_first()
            } else {
                s@
            }),
            model::all_digits(t.subrange(0, i - start)),
            val == model::digits_val(t.subrange(0, i - start)),
            val <= u32::MAX,
        decreases n - i,
    {
        let c = s.get_char(i);
        let u = c as u32;
        let ghost pre = t.subrange(0, i - start);
        proof {
            assert(t[i - start] == s@[i as int]);
        }
        if u < '0' as u32 || u > '9' as u32 {
            proof {
                assert(!model::is_digit(t[i - start]));
            }
            return None;
        }
        let ghost pre1 = t.subrange(0, i - start + 1);
        proof {
            assert(pre1.drop_last() =~= pre);
            assert(pre1.last() == t[i - start]);
        }
        let d: u64 = (u - '0' as u32) as u64;
        let nv: u64 = val * 10 + d;
        proof {
            assert(model::digits_val(pre1) == nv);
            assert(model::all_digits(pre1));
        }
        if nv > u32::MAX as u64 {
            proof {
                if model::all_digits(t) {
                    model::lemma_digits_val_prefix_le(t, i - start + 1);
                }
            }
            return None;
        }
        val = nv;
        i = i + 1;
    }
    proof {
        assert(t.subrange(0, n - start) =~= t);
    }
    Some(val as u32)
}

} // verus!
