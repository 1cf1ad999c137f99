//! Properties of the model that hold beyond any single parse call.

use vstd::prelude::*;

use crate::model;

verus! {

/// Parsing is a pure function of its input: two parses of the same stream
/// under the same policy agree field for field.
pub proof fn lemma_parse_deterministic(
    input: Seq<char>,
    require_start_tag: bool,
    m1: model::MessageModel,
    m2: model::MessageModel,
)
    requires
        model::parse_spec(input, require_start_tag) == Some(m1),
        model::parse_spec(input, require_start_tag) == Some(m2),
    ensures
        m1 == m2,
{
}

/// A well-shaped header parses to exactly its parts: for any identifier
/// `id` (nonempty, whitespace-free) and any speaker `name` (whitespace- and
/// bracket-free), the header segment `[msg <id> [<name>` — what stands
/// before the stream's first `']'` in `[msg <id> [<name>]]...` — yields the
/// box type of `id`'s prefix, `id` itself as the message identifier, and
/// `name`, de-bracketed, as the speaker.
pub proof fn lemma_header_well_formed(id: Seq<char>, name: Seq<char>)
    requires
        id.len() > 0,
        forall|i: int| 0 <= i < id.len() ==> !model::is_space(#[trigger] id[i]),
        forall|i: int|
            0 <= i < name.len() ==> !model::is_space(#[trigger] name[i]) && name[i] != '['
                && name[i] != ']',
    ensures
        model::header_spec(
            seq!['['] + model::msg_keyword() + seq![' '] + id + seq![' ', '['] + name,
        ) == Some(
            model::HeaderModel {
                box_type: model::box_type_of(id),
                message_id: id,
                character: Some(name),
            },
        ),
{
    let kw = model::msg_keyword();
    let hdr = seq!['['] + kw + seq![' '] + id + seq![' ', '['] + name;
    let after_kw = seq![' '] + id + seq![' ', '['] + name;
    let rest = kw + after_kw;
    let after_sp1 = id + (seq![' ', '['] + name);
    let after_sp2 = seq!['['] + name;
    let empty = Seq::<char>::empty();

    // The single leading '[' is dropped, exposing the keyword.
    assert(hdr[0] == '[');
    assert(hdr.drop_first() =~= rest);
    assert(rest[0] == 'm');
    assert(model::drop_leading(rest, '[') == rest);
    assert(model::drop_leading(hdr, '[') == model::drop_leading(rest, '['));

    // The keyword joins the (empty) token under construction.
    assert(forall|i: int| 0 <= i < kw.len() ==> !model::is_space(#[trigger] kw[i]));
    model::lemma_split_ws_acc_solid(kw, after_kw, empty);
    assert(empty + kw =~= kw);

    // The space after the keyword closes the first token.
    assert(after_kw[0] == ' ');
    assert(after_kw.drop_first() =~= after_sp1);
    assert(model::split_ws_acc(after_kw, kw) == seq![kw] + model::split_ws_acc(after_sp1, empty));

    // The identifier joins, and the next space closes it.
    model::lemma_split_ws_acc_solid(id, seq![' ', '['] + name, empty);
    assert(empty + id =~= id);
    assert((seq![' ', '['] + name)[0] == ' ');
    assert((seq![' ', '['] + name).drop_first() =~= after_sp2);
    assert(model::split_ws_acc(seq![' ', '['] + name, id) == seq![id] + model::split_ws_acc(
        after_sp2,
        empty,
    ));

    // The bracketed name is the third and last token.
    assert(forall|i: int|
        0 <= i < after_sp2.len() ==> !model::is_space(#[trigger] after_sp2[i]));
    model::lemma_split_ws_acc_solid(after_sp2, empty, empty);
    assert(after_sp2 + empty =~= after_sp2);
    assert(empty + after_sp2 =~= after_sp2);
    assert(model::split_ws_acc(empty, after_sp2) == seq![after_sp2]);

    let toks = model::header_tokens(hdr);
    assert(toks =~= seq![kw, id, after_sp2]);
    assert(toks[0] == kw && toks[1] == id && toks[2] == after_sp2);
    assert(model::header_ok(hdr));

    // The name emerges from the third token with its bracket stripped.
    assert(after_sp2[0] == '[');
    assert(after_sp2.drop_first() =~= name);
    model::lemma_strip_brackets_clean(name);
    assert(model::strip_brackets(after_sp2) == name);
}

/// An input with no `']'` anywhere never parses, under either strictness
/// policy.
pub proof fn lemma_missing_bracket_rejected(input: Seq<char>, require_start_tag: bool)
    requires
        forall|i: int| 0 <= i < input.len() ==> #[trigger] input[i] != ']',
    ensures
        model::parse_spec(input, require_start_tag) is None,
{
    model::lemma_find_char_absent(input, ']', 0);
}

/// An input whose header segment has fewer than two tokens after the `msg`
/// keyword — fewer than three tokens in all — never parses, under either
/// strictness policy.
pub proof fn lemma_short_header_rejected(input: Seq<char>, require_start_tag: bool)
    requires
        model::find_char(input, ']', 0) < input.len(),
        model::header_tokens(input.subrange(0, model::find_char(input, ']', 0))).len() < 3,
    ensures
        model::parse_spec(input, require_start_tag) is None,
{
}

/// Does some segment of the list terminate the scan?
pub open spec fn has_end_seg(segs: Seq<Seq<char>>) -> bool {
    exists|k: int| 0 <= k < segs.len() && model::is_end_seg(#[trigger] segs[k])
}

/// Once a segment list contains an end marker, whatever segments follow the
/// list — literal text and tags alike — leave the dispatched output
/// untouched: they reach neither the text nor the flags nor the award.
pub proof fn lemma_end_tag_truncates(
    segs: Seq<Seq<char>>,
    suffix: Seq<Seq<char>>,
    acc: model::ContentModel,
)
    requires
        has_end_seg(segs),
    ensures
        model::dispatch_segs(segs + suffix, acc) == model::dispatch_segs(segs, acc),
    decreases segs.len(),
{
    let k = choose|k: int| 0 <= k < segs.len() && model::is_end_seg(#[trigger] segs[k]);
    assert((segs + suffix)[0] == segs[0]);
    if model::is_end_seg(segs[0]) {
        assert((segs + suffix).len() > 0 && (segs + suffix)[0].len() > 0);
    } else {
        assert(k > 0);
        let d = segs.drop_first();
        assert(model::is_end_seg(d[k - 1]));
        assert(has_end_seg(d));
        assert((segs + suffix).drop_first() =~= d + suffix);
        if segs[0].len() == 0 {
            lemma_end_tag_truncates(d, suffix, acc);
        } else {
            lemma_end_tag_truncates(d, suffix, model::dispatch_step(segs[0], acc));
        }
    }
}

/// Within one message the flags only ever rise: once the dispatcher has
/// set `has_lipsync` or `wait_for_input`, no later segment clears it.
pub proof fn lemma_flags_never_reset(segs: Seq<Seq<char>>, acc: model::ContentModel)
    ensures
        acc.flags.has_lipsync ==> model::dispatch_segs(segs, acc).flags.has_lipsync,
        acc.flags.wait_for_input ==> model::dispatch_segs(segs, acc).flags.wait_for_input,
    decreases segs.len(),
{
    if segs.len() == 0 {
    } else if segs[0].len() == 0 {
        lemma_flags_never_reset(segs.drop_first(), acc);
    } else if model::is_end_seg(segs[0]) {
    } else {
        lemma_flags_never_reset(segs.drop_first(), model::dispatch_step(segs[0], acc));
    }
}

/// Two segment lists that agree up to their first end markers dispatch
/// alike: the scan never looks past the marker.
proof fn lemma_dispatch_ends_agree(
    a: Seq<Seq<char>>,
    x: Seq<Seq<char>>,
    y: Seq<Seq<char>>,
    acc: model::ContentModel,
)
    requires
        x.len() > 0,
        y.len() > 0,
        model::is_end_seg(x[0]),
        model::is_end_seg(y[0]),
    ensures
        model::dispatch_segs(a + x, acc) == model::dispatch_segs(a + y, acc),
    decreases a.len(),
{
    if a.len() == 0 {
        assert(a + x =~= x);
        assert(a + y =~= y);
    } else {
        assert((a + x)[0] == a[0]);
        assert((a + y)[0] == a[0]);
        assert((a + x).drop_first() =~= a.drop_first() + x);
        assert((a + y).drop_first() =~= a.drop_first() + y);
        if a[0].len() == 0 {
            lemma_dispatch_ends_agree(a.drop_first(), x, y, acc);
        } else if model::is_end_seg(a[0]) {
        } else {
            lemma_dispatch_ends_agree(a.drop_first(), x, y, model::dispatch_step(a[0], acc));
        }
    }
}

/// The end marker truncates the raw stream itself: whatever characters
/// follow a `[e` in the content part — further literal text and further
/// tags alike — the dispatched text, flags and award are those of the
/// stream cut right after the marker.
pub proof fn lemma_end_marker_truncates_stream(u: Seq<char>, v: Seq<char>)
    ensures
        model::content_spec(u + seq!['[', 'e'] + v) == model::content_spec(u + seq!['[', 'e']),
{
    let empty = Seq::<char>::empty();
    let bracket = seq!['['];
    let a = model::split_on_acc(u, '[', empty);
    model::lemma_split_on_acc_len(u, '[', empty);

    // Segments of `u` followed by one `'['`: those of `u`, plus a fresh
    // empty piece under construction.
    model::lemma_split_on_acc_concat(u, bracket, '[', empty);
    assert(bracket[0] == '[');
    assert(bracket.drop_first() =~= empty);
    assert(model::split_on_acc(empty, '[', empty) == seq![empty]);
    assert(model::split_on_acc(bracket, '[', a.last()) == seq![a.last()] + seq![empty]);
    let b = model::split_on_acc(u + bracket, '[', empty);
    assert(b == a.drop_last() + (seq![a.last()] + seq![empty]));
    assert(b =~= a + seq![empty]);
    assert(b.last() == empty);
    assert(b.drop_last() =~= a);

    // The full stream: the segments of `u`, then an `'e'`-led segment and
    // whatever `v` contributes beyond it.
    let ev = seq!['e'] + v;
    assert(u + seq!['[', 'e'] + v =~= (u + bracket) + ev);
    model::lemma_split_on_acc_concat(u + bracket, ev, '[', empty);
    let x = model::split_on_acc(ev, '[', empty);
    assert(model::split_on_acc((u + bracket) + ev, '[', empty) =~= a + x);
    assert(ev[0] == 'e');
    assert(ev.drop_first() =~= v);
    assert(empty.push('e') =~= seq!['e']);
    assert(x == model::split_on_acc(v, '[', seq!['e']));
    model::lemma_split_on_acc_first(v, '[', seq!['e']);
    model::lemma_split_on_acc_len(v, '[', seq!['e']);
    assert(x.len() > 0 && model::is_end_seg(x[0]));

    // The truncated stream: the segments of `u`, then the bare end marker.
    let e = seq!['e'];
    assert(u + seq!['[', 'e'] =~= (u + bracket) + e);
    model::lemma_split_on_acc_concat(u + bracket, e, '[', empty);
    let y = model::split_on_acc(e, '[', empty);
    assert(e[0] == 'e');
    assert(e.drop_first() =~= empty);
    assert(y == model::split_on_acc(empty, '[', empty.push('e')));
    assert(y == seq![empty.push('e')]);
    assert(y.len() > 0 && model::is_end_seg(y[0]));
    assert(model::split_on_acc((u + bracket) + e, '[', empty) =~= a + y);

    lemma_dispatch_ends_agree(a, x, y, model::content_init());
    assert(model::split_on(u + seq!['[', 'e'] + v, '[') == a + x);
    assert(model::split_on(u + seq!['[', 'e'], '[') == a + y);
}

} // verus!
