//! The public data types of the library and the executable parser.
//!
//! Each executable function is specified against the model in
//! [`crate::model`]: its contract says that what it returns is exactly what
//! the model assigns to its input.

use vstd::prelude::*;

use crate::model;
use crate::model::ContentModel;
use crate::model::HeaderModel;
use crate::model::MessageModel;

verus! {

/// The presentation style of a dialogue box, encoded as a three-letter
/// prefix of the message identifier.  Unrecognized prefixes map to
/// `Unknown`, never to a failure.
#[derive(Debug, Clone, Copy, PartialEq, Eq, Structural)]
pub enum BoxType {
    Help,
    Message,
    Mind,
    System,
    Trivia,
    Devil,
    Progress,
    Unknown,
}

/// The header of one message: its box type, its literal identifier token
/// (prefix included), and the de-bracketed speaker name when one is given.
#[derive(Debug)]
pub struct MessageHeader {
    pub box_type: BoxType,
    pub message_id: String,
    pub character: Option<String>,
}

/// Presentation flags of one message.  Both default to false and are set
/// by the presence of the respective tag.
#[derive(Debug, Clone, Copy, PartialEq, Eq, Structural)]
pub struct MessageFlags {
    pub has_lipsync: bool,
    pub wait_for_input: bool,
}

/// A confidant-points award carried by a message.  Either all three fields
/// parsed, or the award as a whole is absent.
#[derive(Debug, Clone, Copy, PartialEq, Eq, Structural)]
pub struct ConfidantPoints {
    pub confidant_id: u8,
    pub points: u8,
    pub model_id: u16,
}

/// One parsed dialogue message.
#[derive(Debug)]
pub struct Message {
    pub header: MessageHeader,
    pub content: String,
    pub flags: MessageFlags,
    pub confidant_points: Option<ConfidantPoints>,
}

impl View for MessageHeader {
    type V = HeaderModel;

    open spec fn view(&self) -> HeaderModel {
        HeaderModel {
            box_type: self.box_type,
            message_id: self.message_id@,
            character: match self.character {
                Some(c) => Some(c@),
                None => None,
            },
        }
    }
}

/// Does `s` contain the literal start-of-text marker `[s]`?
fn contains_start_tag(s: &str) -> (r: bool)
    ensures
        r == model::has_start_tag(s@),
{
    let n: usize = s.unicode_len();
    if n < 3 {
        return false;
    }
    let mut i: usize = 0;
    while i < n - 2
        invariant
            3 <= n == s@.len(),
            i <= n,
            forall|j: int|
                0 <= j < i ==> !(#[trigger] s@[j] == '[' && s@[j + 1] == 's' && s@[j + 2] == ']'),
        decreases n - i,
    {
        if s.get_char(i) == '[' && s.get_char(i + 1) == 's' && s.get_char(i + 2) == ']' {
            proof {
                assert(s@[i as int] == '[' && s@[i + 1] == 's' && s@[i + 2] == ']');
            }
            return true;
        }
        i = i + 1;
    }
    false
}

impl Message {
    /// Parse one complete tag-stream string into a [`Message`] under the
    /// strict policy: the content must carry a `[s]` start-of-text marker.
    ///
    /// Returns `None` exactly when the input has no `']'` at all, when its
    /// header is malformed (see [`Message::parse_header`]), or when the
    /// `[s]` marker is missing.
    pub fn parse(input: &str) -> (r: Option<Message>)
        ensures
            match r {
                Some(m) => model::parse_spec(input@, true) == Some(m@),
                None => model::parse_spec(input@, true) is None,
            },
    {
        Self::parse_with(input, true)
    }

    /// Parse one complete tag-stream string into a [`Message`], with the
    /// strictness policy explicit: when `require_start_tag` is set, inputs
    /// whose content lacks a `[s]` start-of-text marker are rejected;
    /// otherwise they are accepted.
    pub fn parse_with(input: &str, require_start_tag: bool) -> (r: Option<Message>)
        ensures
            match r {
                Some(m) => model::parse_spec(input@, require_start_tag) == Some(m@),
                None => model::parse_spec(input@, require_start_tag) is None,
            },
    {
        let n: usize = input.unicode_len();
        let j: usize = match crate::scan::find_char_at(input, ']', 0) {
            Some(j) => j,
            None => {
                return None;
            },
        };
        let header_part = input.substring_char(0, j);
        let content_part = input.substring_char(j + 1, n);
        let header = match Self::parse_header(header_part) {
            Some(h) => h,
            None => {
                return None;
            },
        };
        if require_start_tag && !contains_start_tag(content_part) {
            return None;
        }
        let (content, flags, confidant_points) = Self::parse_content(content_part);
        Some(Message { header, content, flags, confidant_points })
    }

    /// Parse the leading bracketed header segment of a tag-stream (the text
    /// before the stream's first `']'`) into a [`MessageHeader`].
    ///
    /// Returns `None` exactly when the segment, after its leading `'['`
    /// characters are removed, has fewer than three whitespace tokens or
    /// does not open with the `msg` keyword.
    pub fn parse_header(header: &str) -> (r: Option<MessageHeader>)
        ensures
            match r {
                Some(h) => model::header_spec(header@) == Some(h@),
                None => model::header_spec(header@) is None,
            },
    {
        let n: usize = header.unicode_len();
        let mut a: usize = 0;
        proof {
            assert(header@.subrange(0, n as int) =~= header@);
        }
        while a < n
            invariant
                a <= n,
                n == header@.len(),
                model::drop_leading(header@, '[') == model::drop_leading(
                    header@.subrange(a as int, n as int),
                    '[',
                ),
            ensures
                a <= n,
                n == header@.len(),
                model::drop_leading(header@, '[') == model::drop_leading(
                    header@.subrange(a as int, n as int),
                    '[',
                ),
                a == n || header@[a as int] != '[',
            decreases n - a,
        {
            if header.get_char(a) != '[' {
                break;
            }
            proof {
                let rest = header@.subrange(a as int, n as int);
                assert(rest[0] == header@[a as int]);
                assert(rest.drop_first() =~= header@.subrange(a + 1, n as int));
            }
            a = a + 1;
        }
        let stripped = header.substring_char(a, n);
        proof {
            assert(model::drop_leading(header@, '[') == stripped@);
        }
        let toks = crate::scan::ws_tokens(stripped);
        let ghost tokviews = model::header_tokens(header@);
        proof {
            assert(toks@.map_values(|x: String| x@) == tokviews);
            assert(toks@.len() == tokviews.len());
        }
        if toks.len() < 3 {
            return None;
        }
        let t0 = (&toks[0]).as_str();
        proof {
            assert(t0@ == tokviews[0]);
        }
        let kw_ok = t0.unicode_len() == 3 && t0.get_char(0) == 'm' && t0.get_char(1) == 's'
            && t0.get_char(2) == 'g';
        proof {
            if t0@ == model::msg_keyword() {
                assert(t0@.len() == 3 && t0@[0] == 'm' && t0@[1] == 's' && t0@[2] == 'g');
            }
            if kw_ok {
                assert(t0@ =~= model::msg_keyword());
            }
        }
        if !kw_ok {
            return None;
        }
        let t1 = (&toks[1]).as_str();
        proof {
            assert(t1@ == tokviews[1]);
        }
        let m = t1.unicode_len();
        let box_type = if m >= 3 {
            let c0 = t1.get_char(0);
            let c1 = t1.get_char(1);
            let c2 = t1.get_char(2);
            if c0 == 'H' && c1 == 'L' && c2 == 'P' {
                BoxType::Help
            } else if c0 == 'M' && c1 == 'S' && c2 == 'G' {
                BoxType::Message
            } else if c0 == 'M' && c1 == 'N' && c2 == 'D' {
                BoxType::Mind
            } else if c0 == 'S' && c1 == 'Y' && c2 == 'S' {
                BoxType::System
            } else if c0 == 'T' && c1 == 'R' && c2 == 'V' {
                BoxType::Trivia
            } else if c0 == 'D' && c1 == 'V' && c2 == 'L' {
                BoxType::Devil
            } else if c0 == 'P' && c1 == 'F' && c2 == 'M' {
                BoxType::Progress
            } else {
                BoxType::Unknown
            }
        } else {
            BoxType::Unknown
        };
        proof {
            assert(box_type == model::box_type_of(tokviews[1]));
        }
        let message_id = t1.to_owned();
        let t2 = (&toks[2]).as_str();
        proof {
            assert(t2@ == tokviews[2]);
        }
        let character = if t2.unicode_len() > 0 && t2.get_char(0) == '[' {
            Some(strip_bracket_chars(t2))
        } else {
            None
        };
        Some(MessageHeader { box_type, message_id, character })
    }

    /// Tokenize and dispatch the remainder of a tag-stream (everything after
    /// the header's closing `']'`) into the literal text, the presentation
    /// flags, and the optional confidant-points award.
    ///
    /// The remainder is segmented on `'['`; each segment either emits text,
    /// sets a flag, carries an award, or — on the end marker — stops the
    /// scan at once.  The returned text is trimmed of surrounding
    /// whitespace.  This stage never fails.
    pub fn parse_content(content: &str) -> (r: (String, MessageFlags, Option<ConfidantPoints>))
        ensures
            r.0@ == model::trim(model::content_spec(content@).text),
            r.1 == model::content_spec(content@).flags,
            r.2 == model::content_spec(content@).award,
    {
        let segs = crate::scan::split_segments(content);
        let ghost segviews = model::split_on(content@, '[');
        let lp = lipsync_prefix_vec();
        let ap = award_prefix_vec();
        let mut text = String::new();
        let mut flags = MessageFlags { has_lipsync: false, wait_for_input: false };
        let mut award: Option<ConfidantPoints> = None;
        let mut k: usize = 0;
        proof {
            assert(segviews.subrange(0, segviews.len() as int) =~= segviews);
        }
        while k < segs.len()
            invariant
                k <= segs@.len(),
                segs@.map_values(|x: String| x@) == segviews,
                segviews.len() == segs@.len(),
                lp@ == model::lipsync_prefix(),
                ap@ == model::award_prefix(),
                model::content_spec(content@) == model::dispatch_segs(
                    segviews.subrange(k as int, segviews.len() as int),
                    ContentModel { text: text@, flags: flags, award: award },
                ),
            decreases segs@.len() - k,
        {
            let seg = (&segs[k]).as_str();
            let ghost segv = segviews[k as int];
            let ghost rem = segviews.subrange(k as int, segviews.len() as int);
            let ghost acc = ContentModel { text: text@, flags: flags, award: award };
            proof {
                assert(seg@ == segv);
                assert(rem[0] == segv);
                assert(rem.drop_first() =~= segviews.subrange(k + 1, segviews.len() as int));
            }
            if seg.unicode_len() == 0 {
                proof {
                    assert(model::dispatch_segs(rem, acc) == model::dispatch_segs(
                        rem.drop_first(),
                        acc,
                    ));
                }
                k = k + 1;
                continue;
            }
            let c = seg.get_char(0);
            if c == 'e' {
                proof {
                    assert(model::is_end_seg(segv));
                    assert(model::dispatch_segs(rem, acc) == acc);
                    assert(segviews.subrange(
                        segviews.len() as int,
                        segviews.len() as int,
                    ) =~= Seq::<Seq<char>>::empty());
                }
                k = segs.len();
                continue;
            }
            if c == 's' {
                let t = crate::scan::tag_text_str(seg);
                text.append(t.as_str());
            } else if crate::scan::has_prefix(seg, &lp) {
                flags.has_lipsync = true;
                let t = crate::scan::tag_text_str(seg);
                text.append(t.as_str());
            } else if c == 'w' {
                flags.wait_for_input = true;
            } else if crate::scan::has_prefix(seg, &ap) {
                award = award_of_str(seg);
                let t = crate::scan::tag_text_str(seg);
                text.append(t.as_str());
            } else if c == 'f' {
                let t = crate::scan::tag_text_str(seg);
                text.append(t.as_str());
            } else {
                let t = crate::scan::literal_text_str(seg);
                text.append(t.as_str());
            }
            proof {
                assert(model::dispatch_step(segv, acc) == (ContentModel {
                    text: text@,
                    flags: flags,
                    award: award,
                }));
                assert(model::dispatch_segs(rem, acc) == model::dispatch_segs(
                    rem.drop_first(),
                    model::dispatch_step(segv, acc),
                ));
            }
            k = k + 1;
        }
        proof {
            assert(segviews.subrange(segviews.len() as int, segviews.len() as int)
                =~= Seq::<Seq<char>>::empty());
        }
        let trimmed = crate::scan::trim_str(text.as_str());
        (trimmed, flags, award)
    }
}

/// The characters of the lipsync tag prefix, `f 4 10`.
fn lipsync_prefix_vec() -> (r: Vec<char>)
    ensures
        r@ == model::lipsync_prefix(),
{
    let mut v: Vec<char> = Vec::new();
    v.push('f');
    v.push(' ');
    v.push('4');
    v.push(' ');
    v.push('1');
    v.push('0');
    proof {
        assert(v@ =~= model::lipsync_prefix());
    }
    v
}

/// The characters of the confidant-award tag prefix, `f 5 13 `.
fn award_prefix_vec() -> (r: Vec<char>)
    ensures
        r@ == model::award_prefix(),
{
    let mut v: Vec<char> = Vec::new();
    v.push('f');
    v.push(' ');
    v.push('5');
    v.push(' ');
    v.push('1');
    v.push('3');
    v.push(' ');
    proof {
        assert(v@ =~= model::award_prefix());
    }
    v
}

/// The confidant-award arguments of an `f 5 13 ` segment: the first three
/// whitespace tokens after the prefix and before the segment's first
/// `']'`, each parsed as `u32` and narrowed by truncation; `None` when any
/// of that fails.
fn award_of_str(s: &str) -> (r: Option<ConfidantPoints>)
    requires
        model::starts_with(s@, model::award_prefix()),
    ensures
        r == model::award_of(s@),
{
    let n: usize = s.unicode_len();
    let j: usize = match crate::scan::find_char_at(s, ']', 0) {
        Some(j) => j,
        None => n,
    };
    let ghost head = s@.subrange(0, model::find_char(s@, ']', 0));
    proof {
        assert(j == model::find_char(s@, ']', 0));
        assert(s@.subrange(0, 7) == model::award_prefix());
        if j < 7 {
            assert(s@.subrange(0, 7)[j as int] == s@[j as int]);
            assert(model::award_prefix()[j as int] != ']');
        }
        assert(j >= 7);
        assert(head.subrange(7, head.len() as int) =~= s@.subrange(7, j as int));
    }
    let args_str = s.substring_char(7, j);
    let args = crate::scan::ws_tokens(args_str);
    let ghost argviews = model::split_ws(head.subrange(7, head.len() as int));
    proof {
        assert(args@.map_values(|x: String| x@) == argviews);
    }
    if args.len() < 3 {
        return None;
    }
    let a0 = crate::scan::parse_u32_str((&args[0]).as_str());
    let a1 = crate::scan::parse_u32_str((&args[1]).as_str());
    let a2 = crate::scan::parse_u32_str((&args[2]).as_str());
    proof {
        assert(args@[0]@ == argviews[0]);
        assert(args@[1]@ == argviews[1]);
        assert(args@[2]@ == argviews[2]);
    }
    match (a0, a1, a2) {
        (Some(a), Some(b), Some(c)) => Some(
            ConfidantPoints {
                confidant_id: #[verifier::truncate] (a as u8),
                points: #[verifier::truncate] (b as u8),
                model_id: #[verifier::truncate] (c as u16),
            },
        ),
        _ => None,
    }
}

/// `s` with all `'['` and `']'` characters removed, as an owned string.
fn strip_bracket_chars(s: &str) -> (r: String)
    ensures
        r@ == model::strip_brackets(s@),
{
    let n: usize = s.unicode_len();
    let mut out = String::new();
    let mut i: usize = 0;
    proof {
        assert(s@.subrange(0, n as int) =~= s@);
    }
    while i < n
        invariant
            i <= n,
            n == s@.len(),
            model::strip_brackets(s@) == out@ + model::strip_brackets(
                s@.subrange(i as int, n as int),
            ),
        decreases n - i,
    {
        let ghost rest = s@.subrange(i as int, n as int);
        let c = s.get_char(i);
        proof {
            assert(rest[0] == s@[i as int]);
            assert(rest.drop_first() =~= s@.subrange(i + 1, n as int));
        }
        if c != '[' && c != ']' {
            let piece = s.substring_char(i, i + 1);
            proof {
                assert(piece@ =~= seq![s@[i as int]]);
            }
            out.append(piece);
        }
        i = i + 1;
    }
    proof {
        assert(s@.subrange(n as int, n as int) =~= Seq::<char>::empty());
        assert(out@ + Seq::<char>::empty() =~= out@);
    }
    out
}

impl View for Message {
    type V = MessageModel;

    open spec fn view(&self) -> MessageModel {
        MessageModel {
            header: self.header@,
            content: self.content@,
            flags: self.flags,
            confidant_points: self.confidant_points,
        }
    }
}

} // verus!
