//! Mathematical model of the tag-stream format.
//!
//! Everything here is specification-level: recursive functions over
//! `Seq<char>` that say, exactly, what each stage of the parser produces.
//! The executable functions in [`crate::parser`] are verified against these.

use vstd::prelude::*;

use crate::parser::BoxType;
use crate::parser::ConfidantPoints;
use crate::parser::MessageFlags;

verus! {

/// ASCII whitespace, as the tokenizer and the trimmer understand it.
pub open spec fn is_space(c: char) -> bool {
    c == ' ' || c == '\t' || c == '\n' || c == '\r' || c == '\u{b}' || c == '\u{c}'
}

/// ASCII decimal digit.
pub open spec fn is_digit(c: char) -> bool {
    '0' as u32 <= c as u32 && c as u32 <= '9' as u32
}

/// Index of the first occurrence of `d` in `s` at or after `from`;
/// `s.len()` when there is none.
pub open spec fn find_char(s: Seq<char>, d: char, from: int) -> int
    decreases s.len() - from,
{
    if from < 0 || from >= s.len() {
        s.len() as int
    } else if s[from] == d {
        from
    } else {
        find_char(s, d, from + 1)
    }
}

/// `s` with every leading occurrence of `d` removed.
pub open spec fn drop_leading(s: Seq<char>, d: char) -> Seq<char>
    decreases s.len(),
{
    if s.len() > 0 && s[0] == d {
        drop_leading(s.drop_first(), d)
    } else {
        s
    }
}

/// `s` with all `'['` and `']'` characters removed.
pub open spec fn strip_brackets(s: Seq<char>) -> Seq<char>
    decreases s.len(),
{
    if s.len() == 0 {
        seq![]
    } else if s[0] == '[' || s[0] == ']' {
        strip_brackets(s.drop_first())
    } else {
        seq![s[0]] + strip_brackets(s.drop_first())
    }
}

/// `s` with leading whitespace removed.
pub open spec fn trim_front(s: Seq<char>) -> Seq<char>
    decreases s.len(),
{
    if s.len() > 0 && is_space(s[0]) {
        trim_front(s.drop_first())
    } else {
        s
    }
}

/// `s` with trailing whitespace removed.
pub open spec fn trim_back(s: Seq<char>) -> Seq<char>
    decreases s.len(),
{
    if s.len() > 0 && is_space(s.last()) {
        trim_back(s.drop_last())
    } else {
        s
    }
}

/// `s` with surrounding whitespace removed.
pub open spec fn trim(s: Seq<char>) -> Seq<char> {
    trim_back(trim_front(s))
}

/// Trimming the front is taking the subrange from the first non-space
/// character on.
pub proof fn lemma_trim_front_subrange(s: Seq<char>, a: int)
    requires
        0 <= a <= s.len(),
        forall|j: int| 0 <= j < a ==> is_space(#[trigger] s[j]),
        a == s.len() || !is_space(s[a]),
    ensures
        trim_front(s) == s.subrange(a, s.len() as int),
    decreases a,
{
    if a == 0 {
        assert(s.subrange(0, s.len() as int) =~= s);
    } else {
        assert(is_space(s[0]));
        let d = s.drop_first();
        assert(forall|j: int| 0 <= j < a - 1 ==> is_space(#[trigger] d[j]));
        lemma_trim_front_subrange(d, a - 1);
        assert(d.subrange(a - 1, d.len() as int) =~= s.subrange(a, s.len() as int));
    }
}

/// Trimming the back is taking the subrange up to the last non-space
/// character.
pub proof fn lemma_trim_back_subrange(s: Seq<char>, b: int)
    requires
        -1 <= b < s.len(),
        forall|j: int| b < j < s.len() ==> is_space(#[trigger] s[j]),
        b == -1 || !is_space(s[b]),
    ensures
        trim_back(s) == s.subrange(0, b + 1),
    decreases s.len() - b,
{
    if b == s.len() - 1 {
        assert(s.subrange(0, s.len() as int) =~= s);
    } else if s.len() == 0 {
        assert(s.subrange(0, 0) =~= s);
    } else {
        assert(is_space(s.last()));
        let d = s.drop_last();
        assert(forall|j: int| 0 <= j < d.len() ==> #[trigger] d[j] == s[j]);
        lemma_trim_back_subrange(d, b);
        assert(d.subrange(0, b + 1) =~= s.subrange(0, b + 1));
    }
}

/// A digit string has a non-negative value.
pub proof fn lemma_digits_val_nonneg(s: Seq<char>)
    requires
        all_digits(s),
    ensures
        digits_val(s) >= 0,
    decreases s.len(),
{
    if s.len() > 0 {
        let d = s.drop_last();
        assert(forall|j: int| 0 <= j < d.len() ==> is_digit(#[trigger] d[j]));
        lemma_digits_val_nonneg(d);
        assert(is_digit(s.last()));
        assert(digits_val(s) == digits_val(d) * 10 + (s.last() as u32 - '0' as u32));
    }
}

/// Extending a digit string never shrinks its value: the value of a prefix
/// bounds the value of the whole from below.
pub proof fn lemma_digits_val_prefix_le(s: Seq<char>, i: int)
    requires
        all_digits(s),
        0 <= i <= s.len(),
    ensures
        digits_val(s.subrange(0, i)) <= digits_val(s),
    decreases s.len() - i,
{
    if i == s.len() {
        assert(s.subrange(0, i) =~= s);
    } else {
        let p = s.subrange(0, i);
        let q = s.subrange(0, i + 1);
        assert(q.drop_last() =~= p);
        assert(q.last() == s[i]);
        assert(forall|j: int| 0 <= j < p.len() ==> is_digit(#[trigger] p[j]));
        lemma_digits_val_nonneg(p);
        assert(is_digit(s[i]));
        assert(digits_val(q) == digits_val(p) * 10 + (s[i] as u32 - '0' as u32));
        lemma_digits_val_prefix_le(s, i + 1);
    }
}

/// Does `p` occur at the start of `s`?
pub open spec fn starts_with(s: Seq<char>, p: Seq<char>) -> bool {
    p.len() <= s.len() && s.subrange(0, p.len() as int) == p
}

/// Splitting on a delimiter, carrying the piece under construction.
/// Every delimiter ends a piece, so `n` delimiters yield `n + 1` pieces
/// (empty pieces included).
pub open spec fn split_on_acc(s: Seq<char>, d: char, cur: Seq<char>) -> Seq<Seq<char>>
    decreases s.len(),
{
    if s.len() == 0 {
        seq![cur]
    } else if s[0] == d {
        seq![cur] + split_on_acc(s.drop_first(), d, seq![])
    } else {
        split_on_acc(s.drop_first(), d, cur.push(s[0]))
    }
}

/// The pieces of `s` between occurrences of `d`.
pub open spec fn split_on(s: Seq<char>, d: char) -> Seq<Seq<char>> {
    split_on_acc(s, d, seq![])
}

/// Splitting yields at least one piece: the one under construction.
pub proof fn lemma_split_on_acc_len(s: Seq<char>, d: char, cur: Seq<char>)
    ensures
        split_on_acc(s, d, cur).len() >= 1,
    decreases s.len(),
{
    if s.len() == 0 {
    } else if s[0] == d {
    } else {
        lemma_split_on_acc_len(s.drop_first(), d, cur.push(s[0]));
    }
}

/// Splitting a concatenation: the pieces of `a`, except that `a`'s trailing
/// piece under construction carries over into the split of `b`.
pub proof fn lemma_split_on_acc_concat(a: Seq<char>, b: Seq<char>, d: char, cur: Seq<char>)
    ensures
        ({
            let sa = split_on_acc(a, d, cur);
            split_on_acc(a + b, d, cur) == sa.drop_last() + split_on_acc(b, d, sa.last())
        }),
    decreases a.len(),
{
    let sa = split_on_acc(a, d, cur);
    if a.len() == 0 {
        assert(a + b =~= b);
        assert(sa == seq![cur]);
        assert(sa.drop_last() =~= Seq::<Seq<char>>::empty());
        assert(sa.last() == cur);
        assert(sa.drop_last() + split_on_acc(b, d, cur) =~= split_on_acc(b, d, cur));
    } else {
        assert((a + b)[0] == a[0]);
        assert((a + b).drop_first() =~= a.drop_first() + b);
        if a[0] == d {
            let rest = a.drop_first();
            let empty = Seq::<char>::empty();
            lemma_split_on_acc_concat(rest, b, d, empty);
            let sa2 = split_on_acc(rest, d, empty);
            lemma_split_on_acc_len(rest, d, empty);
            assert(sa == seq![cur] + sa2);
            assert(sa.drop_last() =~= seq![cur] + sa2.drop_last());
            assert(sa.last() == sa2.last());
            assert(seq![cur] + (sa2.drop_last() + split_on_acc(b, d, sa2.last())) =~= sa.drop_last()
                + split_on_acc(b, d, sa.last()));
        } else {
            lemma_split_on_acc_concat(a.drop_first(), b, d, cur.push(a[0]));
        }
    }
}

/// The first piece of a split opens with the first character of the piece
/// already under construction.
pub proof fn lemma_split_on_acc_first(s: Seq<char>, d: char, cur: Seq<char>)
    requires
        cur.len() > 0,
    ensures
        split_on_acc(s, d, cur)[0].len() > 0,
        split_on_acc(s, d, cur)[0][0] == cur[0],
    decreases s.len(),
{
    if s.len() == 0 {
    } else if s[0] == d {
    } else {
        lemma_split_on_acc_first(s.drop_first(), d, cur.push(s[0]));
        assert(cur.push(s[0])[0] == cur[0]);
    }
}

/// Whitespace tokenization, carrying the token under construction.
/// Runs of whitespace separate tokens; tokens are never empty.
pub open spec fn split_ws_acc(s: Seq<char>, cur: Seq<char>) -> Seq<Seq<char>>
    decreases s.len(),
{
    if s.len() == 0 {
        if cur.len() == 0 {
            seq![]
        } else {
            seq![cur]
        }
    } else if is_space(s[0]) {
        if cur.len() == 0 {
            split_ws_acc(s.drop_first(), seq![])
        } else {
            seq![cur] + split_ws_acc(s.drop_first(), seq![])
        }
    } else {
        split_ws_acc(s.drop_first(), cur.push(s[0]))
    }
}

/// The whitespace-separated tokens of `s`.
pub open spec fn split_ws(s: Seq<char>) -> Seq<Seq<char>> {
    split_ws_acc(s, seq![])
}

/// When no occurrence exists, the search runs to the end.
pub proof fn lemma_find_char_absent(s: Seq<char>, d: char, from: int)
    requires
        0 <= from <= s.len(),
        forall|i: int| from <= i < s.len() ==> #[trigger] s[i] != d,
    ensures
        find_char(s, d, from) == s.len(),
    decreases s.len() - from,
{
    if from < s.len() {
        lemma_find_char_absent(s, d, from + 1);
    }
}

/// Tokenizing a stream that opens with a whitespace-free run: the run joins
/// the token under construction.
pub proof fn lemma_split_ws_acc_solid(s: Seq<char>, rest: Seq<char>, cur: Seq<char>)
    requires
        forall|i: int| 0 <= i < s.len() ==> !is_space(#[trigger] s[i]),
    ensures
        split_ws_acc(s + rest, cur) == split_ws_acc(rest, cur + s),
    decreases s.len(),
{
    if s.len() == 0 {
        assert(s + rest =~= rest);
        assert(cur + s =~= cur);
    } else {
        assert((s + rest)[0] == s[0]);
        assert(!is_space(s[0]));
        assert((s + rest).drop_first() =~= s.drop_first() + rest);
        let d = s.drop_first();
        assert(forall|i: int| 0 <= i < d.len() ==> !is_space(#[trigger] d[i]));
        lemma_split_ws_acc_solid(d, rest, cur.push(s[0]));
        assert(cur.push(s[0]) + d =~= cur + s);
    }
}

/// Brackets strip to nothing from a bracket-free string.
pub proof fn lemma_strip_brackets_clean(s: Seq<char>)
    requires
        forall|i: int| 0 <= i < s.len() ==> #[trigger] s[i] != '[' && s[i] != ']',
    ensures
        strip_brackets(s) == s,
    decreases s.len(),
{
    if s.len() > 0 {
        let d = s.drop_first();
        assert(forall|i: int| 0 <= i < d.len() ==> #[trigger] d[i] != '[' && d[i] != ']');
        lemma_strip_brackets_clean(d);
        assert(seq![s[0]] + d =~= s);
    }
}

/// Numeric value of a digit string, most significant digit first.
pub open spec fn digits_val(s: Seq<char>) -> int
    decreases s.len(),
{
    if s.len() == 0 {
        0
    } else {
        digits_val(s.drop_last()) * 10 + (s.last() as u32 - '0' as u32)
    }
}

/// Is every character of `s` a decimal digit?
pub open spec fn all_digits(s: Seq<char>) -> bool {
    forall|i: int| 0 <= i < s.len() ==> is_digit(#[trigger] s[i])
}

/// What `str::parse::<u32>` yields on `s`: an optional leading `'+'`,
/// then at least one digit, value within `u32` range.
pub open spec fn parse_u32(s: Seq<char>) -> Option<u32> {
    let t = if s.len() > 0 && s[0] == '+' {
        s.drop_first()
    } else {
        s
    };
    if t.len() > 0 && all_digits(t) && digits_val(t) <= u32::MAX {
        Some(digits_val(t) as u32)
    } else {
        None
    }
}

/// The box-type classification of a message identifier: its first three
/// characters looked up in the fixed prefix table; anything else, including
/// an identifier shorter than three characters, is `Unknown`.
pub open spec fn box_type_of(id: Seq<char>) -> BoxType {
    if id.len() < 3 {
        BoxType::Unknown
    } else if id[0] == 'H' && id[1] == 'L' && id[2] == 'P' {
        BoxType::Help
    } else if id[0] == 'M' && id[1] == 'S' && id[2] == 'G' {
        BoxType::Message
    } else if id[0] == 'M' && id[1] == 'N' && id[2] == 'D' {
        BoxType::Mind
    } else if id[0] == 'S' && id[1] == 'Y' && id[2] == 'S' {
        BoxType::System
    } else if id[0] == 'T' && id[1] == 'R' && id[2] == 'V' {
        BoxType::Trivia
    } else if id[0] == 'D' && id[1] == 'V' && id[2] == 'L' {
        BoxType::Devil
    } else if id[0] == 'P' && id[1] == 'F' && id[2] == 'M' {
        BoxType::Progress
    } else {
        BoxType::Unknown
    }
}

/// The model of a parsed header: what [`crate::parser::MessageHeader`]
/// abstracts to.
pub ghost struct HeaderModel {
    pub box_type: BoxType,
    pub message_id: Seq<char>,
    pub character: Option<Seq<char>>,
}

/// The literal keyword that must open a header.
pub open spec fn msg_keyword() -> Seq<char> {
    seq!['m', 's', 'g']
}

/// The whitespace tokens of a header segment, after its leading `'['`
/// characters are removed.
pub open spec fn header_tokens(h: Seq<char>) -> Seq<Seq<char>> {
    split_ws(drop_leading(h, '['))
}

/// A header segment is well-formed when it has at least three tokens and
/// opens with the `msg` keyword.
pub open spec fn header_ok(h: Seq<char>) -> bool {
    header_tokens(h).len() >= 3 && header_tokens(h)[0] == msg_keyword()
}

/// What the header parser produces: token 1 is the message identifier and
/// fixes the box type; token 2, when it opens with `'['`, is the speaker
/// name with all brackets stripped.  Tokens past the third are ignored.
pub open spec fn header_spec(h: Seq<char>) -> Option<HeaderModel> {
    if header_ok(h) {
        let toks = header_tokens(h);
        Some(
            HeaderModel {
                box_type: box_type_of(toks[1]),
                message_id: toks[1],
                character: if toks[2].len() > 0 && toks[2][0] == '[' {
                    Some(strip_brackets(toks[2]))
                } else {
                    None
                },
            },
        )
    } else {
        None
    }
}

/// The text a tag segment emits: the characters strictly between its first
/// `']'` and the following `']'` (or the end of the segment); nothing when
/// the segment has no `']'` at all.
pub open spec fn tag_text(seg: Seq<char>) -> Seq<char> {
    let j1 = find_char(seg, ']', 0);
    if j1 == seg.len() {
        seq![]
    } else {
        seg.subrange(j1 + 1, find_char(seg, ']', j1 + 1))
    }
}

/// The text a non-tag segment emits: the whole segment when it has no
/// `']'`, otherwise the same slice a tag segment would emit.
pub open spec fn literal_text(seg: Seq<char>) -> Seq<char> {
    if find_char(seg, ']', 0) == seg.len() {
        seg
    } else {
        tag_text(seg)
    }
}

/// The confidant-award prefix `f 5 13 ` (with its trailing space).
pub open spec fn award_prefix() -> Seq<char> {
    seq!['f', ' ', '5', ' ', '1', '3', ' ']
}

/// The lipsync prefix `f 4 10`.
pub open spec fn lipsync_prefix() -> Seq<char> {
    seq!['f', ' ', '4', ' ', '1', '0']
}

/// The award an `f 5 13 ` segment carries.  Its argument list is the part
/// of the segment before its first `']'`, minus the prefix, split on
/// whitespace; the first three arguments must all parse as `u32` (further
/// arguments are ignored), and are then narrowed by truncation to the
/// field widths.  Any failure drops the award as a whole.
pub open spec fn award_of(seg: Seq<char>) -> Option<ConfidantPoints> {
    let head = seg.subrange(0, find_char(seg, ']', 0));
    let args = split_ws(head.subrange(award_prefix().len() as int, head.len() as int));
    if args.len() >= 3 {
        match (parse_u32(args[0]), parse_u32(args[1]), parse_u32(args[2])) {
            (Some(a), Some(b), Some(c)) => Some(
                ConfidantPoints {
                    confidant_id: a as u8,
                    points: b as u8,
                    model_id: c as u16,
                },
            ),
            _ => None,
        }
    } else {
        None
    }
}

/// Accumulated output of the content dispatcher.
pub ghost struct ContentModel {
    pub text: Seq<char>,
    pub flags: MessageFlags,
    pub award: Option<ConfidantPoints>,
}

/// The dispatcher's starting state: no text, both flags clear, no award.
pub open spec fn content_init() -> ContentModel {
    ContentModel {
        text: seq![],
        flags: MessageFlags { has_lipsync: false, wait_for_input: false },
        award: None,
    }
}

/// Does this segment terminate the scan?  (Nonempty, opening with `'e'`.)
pub open spec fn is_end_seg(seg: Seq<char>) -> bool {
    seg.len() > 0 && seg[0] == 'e'
}

/// One dispatcher step: how a single nonempty, non-terminating segment
/// transforms the accumulated output.  First match wins; the award check
/// precedes the generic effect-tag fallback because all three share the
/// `'f'` prefix.
pub open spec fn dispatch_step(seg: Seq<char>, acc: ContentModel) -> ContentModel {
    if seg[0] == 's' {
        ContentModel { text: acc.text + tag_text(seg), flags: acc.flags, award: acc.award }
    } else if starts_with(seg, lipsync_prefix()) {
        ContentModel {
            text: acc.text + tag_text(seg),
            flags: MessageFlags {
                has_lipsync: true,
                wait_for_input: acc.flags.wait_for_input,
            },
            award: acc.award,
        }
    } else if seg[0] == 'w' {
        ContentModel {
            text: acc.text,
            flags: MessageFlags { has_lipsync: acc.flags.has_lipsync, wait_for_input: true },
            award: acc.award,
        }
    } else if starts_with(seg, award_prefix()) {
        ContentModel { text: acc.text + tag_text(seg), flags: acc.flags, award: award_of(seg) }
    } else if seg[0] == 'f' {
        ContentModel { text: acc.text + tag_text(seg), flags: acc.flags, award: acc.award }
    } else {
        ContentModel { text: acc.text + literal_text(seg), flags: acc.flags, award: acc.award }
    }
}

/// Run the dispatcher over a list of segments: empty segments are skipped,
/// an end segment stops the scan at once, every other segment is one
/// [`dispatch_step`].
pub open spec fn dispatch_segs(segs: Seq<Seq<char>>, acc: ContentModel) -> ContentModel
    decreases segs.len(),
{
    if segs.len() == 0 {
        acc
    } else if segs[0].len() == 0 {
        dispatch_segs(segs.drop_first(), acc)
    } else if is_end_seg(segs[0]) {
        acc
    } else {
        dispatch_segs(segs.drop_first(), dispatch_step(segs[0], acc))
    }
}

/// What the content tokenizer/dispatcher produces on the remainder of a
/// stream: the stream is segmented on `'['` and the segments are
/// dispatched in order.
pub open spec fn content_spec(s: Seq<char>) -> ContentModel {
    dispatch_segs(split_on(s, '['), content_init())
}

/// Does `s` contain the literal start-of-text marker `[s]`?
pub open spec fn has_start_tag(s: Seq<char>) -> bool {
    exists|i: int|
        0 <= i && i + 3 <= s.len() && #[trigger] s[i] == '[' && s[i + 1] == 's' && s[i + 2]
            == ']'
}

/// The model of a whole parsed message.
pub ghost struct MessageModel {
    pub header: HeaderModel,
    pub content: Seq<char>,
    pub flags: MessageFlags,
    pub confidant_points: Option<ConfidantPoints>,
}

/// The whole parse: split the input at its first `']'` into header and
/// remainder; reject when there is no `']'`, when the header is malformed,
/// or — under the strict policy — when the remainder lacks a `[s]` marker.
/// Otherwise the message assembles the header with the dispatched content,
/// its text trimmed of surrounding whitespace.
pub open spec fn parse_spec(input: Seq<char>, require_start_tag: bool) -> Option<MessageModel> {
    let j = find_char(input, ']', 0);
    if j == input.len() {
        None
    } else {
        let header_part = input.subrange(0, j);
        let content_part = input.subrange(j + 1, input.len() as int);
        match header_spec(header_part) {
            None => None,
            Some(h) => {
                if require_start_tag && !has_start_tag(content_part) {
                    None
                } else {
                    let c = content_spec(content_part);
                    Some(
                        MessageModel {
                            header: h,
                            content: trim(c.text),
                            flags: c.flags,
                            confidant_points: c.award,
                        },
                    )
                }
            },
        }
    }
}

} // verus!
