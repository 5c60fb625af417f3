//! A tolerant XML tokenizer. It turns a document into a stream of
//! element-open, element-close and text events, skipping comments,
//! processing instructions and character-data sections, and absorbing
//! malformed fragments instead of rejecting them. Text runs are trimmed
//! of surrounding whitespace and empty runs are dropped.

use vstd::prelude::*;
use vstd::string::StrSliceExecFns;

verus! {

/// One event of the token stream.
pub enum XmlEvent {
    /// An element opened; a self-closing element opens and closes at once.
    Open(String),
    /// An element closed.
    Close(String),
    /// A trimmed, non-empty text run between tags.
    Text(String),
}

/// The abstract value of an `XmlEvent`.
pub enum XmlEventView {
    Open(Seq<char>),
    Close(Seq<char>),
    Text(Seq<char>),
}

impl View for XmlEvent {
    type V = XmlEventView;

    open spec fn view(&self) -> XmlEventView {
        match self {
            XmlEvent::Open(n) => XmlEventView::Open(n@),
            XmlEvent::Close(n) => XmlEventView::Close(n@),
            XmlEvent::Text(t) => XmlEventView::Text(t@),
        }
    }
}

/// The abstract values of a vector of events.
pub open spec fn events_view(v: Seq<XmlEvent>) -> Seq<XmlEventView> {
    v.map_values(|e: XmlEvent| e@)
}

/// XML whitespace.
pub open spec fn is_ws(c: char) -> bool {
    c == ' ' || c == '\t' || c == '\n' || c == '\r'
}

/// Where the tokenizer stands between two characters. Index pairs point
/// back into the input: a pending text run, or a pending element name.
#[derive(Clone, Copy)]
pub enum TokMode {
    /// Between tags; `text` spans the trimmed text run seen so far.
    Outside { text: Option<(usize, usize)> },
    /// After `<`.
    TagStart,
    /// After `</`.
    CloseStart,
    /// Inside an element name that began at `start`.
    Name { closing: bool, start: usize },
    /// Past the name (spanning `ns..ne`), among attributes.
    InTag { closing: bool, ns: usize, ne: usize },
    /// Saw `/` inside an open tag: a self-closing element if `>` follows.
    SelfEnd { ns: usize, ne: usize },
    /// After `<!`.
    Bang,
    /// After `<!-`.
    BangDash,
    /// Inside a comment.
    Comment,
    /// Inside a comment, after `-`.
    CommentDash,
    /// Inside a comment, after `--`.
    CommentDash2,
    /// Inside a character-data section.
    Cdata,
    /// Inside a character-data section, after `]`.
    CdataBracket,
    /// Inside a character-data section, after `]]`.
    CdataBracket2,
    /// Inside a tag being skipped, until `>`.
    SkipTag,
}

/// The stored indexes of a mode stay behind the cursor.
pub open spec fn mode_wf(m: TokMode, i: int) -> bool {
    match m {
        TokMode::Outside { text } => match text {
            Some(p) => p.0 < p.1 <= i,
            None => true,
        },
        TokMode::Name { closing, start } => start <= i,
        TokMode::InTag { closing, ns, ne } => ns <= ne <= i,
        TokMode::SelfEnd { ns, ne } => ns <= ne <= i,
        _ => true,
    }
}

/// One step of the tokenizer: the events emitted at character `i` and the
/// mode that follows it.
pub open spec fn tok_step(s: Seq<char>, m: TokMode, i: usize) -> (Seq<XmlEventView>, TokMode) {
    let c = s[i as int];
    match m {
        TokMode::Outside { text } => {
            if c == '<' {
                let evs = match text {
                    Some(p) => seq![XmlEventView::Text(s.subrange(p.0 as int, p.1 as int))],
                    None => Seq::<XmlEventView>::empty(),
                };
                (evs, TokMode::TagStart)
            } else if is_ws(c) {
                (Seq::<XmlEventView>::empty(), TokMode::Outside { text })
            } else {
                let p2 = match text {
                    Some(p) => (p.0, (i + 1) as usize),
                    None => (i, (i + 1) as usize),
                };
                (Seq::<XmlEventView>::empty(), TokMode::Outside { text: Some(p2) })
            }
        },
        TokMode::TagStart => {
            if c == '/' {
                (Seq::<XmlEventView>::empty(), TokMode::CloseStart)
            } else if c == '!' {
                (Seq::<XmlEventView>::empty(), TokMode::Bang)
            } else if c == '?' {
                (Seq::<XmlEventView>::empty(), TokMode::SkipTag)
            } else if c == '>' {
                (Seq::<XmlEventView>::empty(), TokMode::Outside { text: None })
            } else if is_ws(c) {
                (Seq::<XmlEventView>::empty(), TokMode::SkipTag)
            } else {
                (Seq::<XmlEventView>::empty(), TokMode::Name { closing: false, start: i })
            }
        },
        TokMode::CloseStart => {
            if c == '>' {
                (Seq::<XmlEventView>::empty(), TokMode::Outside { text: None })
            } else if is_ws(c) {
                (Seq::<XmlEventView>::empty(), TokMode::SkipTag)
            } else {
                (Seq::<XmlEventView>::empty(), TokMode::Name { closing: true, start: i })
            }
        },
        TokMode::Name { closing, start } => {
            if c == '>' {
                let name = s.subrange(start as int, i as int);
                let ev = if closing {
                    XmlEventView::Close(name)
                } else {
                    XmlEventView::Open(name)
                };
                (seq![ev], TokMode::Outside { text: None })
            } else if c == '/' && !closing {
                (Seq::<XmlEventView>::empty(), TokMode::SelfEnd { ns: start, ne: i })
            } else if is_ws(c) {
                (Seq::<XmlEventView>::empty(), TokMode::InTag { closing, ns: start, ne: i })
            } else {
                (Seq::<XmlEventView>::empty(), TokMode::Name { closing, start })
            }
        },
        TokMode::InTag { closing, ns, ne } => {
            if c == '>' {
                let name = s.subrange(ns as int, ne as int);
                let ev = if closing {
                    XmlEventView::Close(name)
                } else {
                    XmlEventView::Open(name)
                };
                (seq![ev], TokMode::Outside { text: None })
            } else if c == '/' && !closing {
                (Seq::<XmlEventView>::empty(), TokMode::SelfEnd { ns, ne })
            } else {
                (Seq::<XmlEventView>::empty(), TokMode::InTag { closing, ns, ne })
            }
        },
        TokMode::SelfEnd { ns, ne } => {
            if c == '>' {
                let name = s.subrange(ns as int, ne as int);
                (
                    seq![XmlEventView::Open(name), XmlEventView::Close(name)],
                    TokMode::Outside { text: None },
                )
            } else {
                (Seq::<XmlEventView>::empty(), TokMode::InTag { closing: false, ns, ne })
            }
        },
        TokMode::Bang => {
            if c == '-' {
                (Seq::<XmlEventView>::empty(), TokMode::BangDash)
            } else if c == '[' {
                (Seq::<XmlEventView>::empty(), TokMode::Cdata)
            } else if c == '>' {
                (Seq::<XmlEventView>::empty(), TokMode::Outside { text: None })
            } else {
                (Seq::<XmlEventView>::empty(), TokMode::SkipTag)
            }
        },
        TokMode::BangDash => {
            if c == '-' {
                (Seq::<XmlEventView>::empty(), TokMode::Comment)
            } else if c == '>' {
                (Seq::<XmlEventView>::empty(), TokMode::Outside { text: None })
            } else {
                (Seq::<XmlEventView>::empty(), TokMode::SkipTag)
            }
        },
        TokMode::Comment => {
            if c == '-' {
                (Seq::<XmlEventView>::empty(), TokMode::CommentDash)
            } else {
                (Seq::<XmlEventView>::empty(), TokMode::Comment)
            }
        },
        TokMode::CommentDash => {
            if c == '-' {
                (Seq::<XmlEventView>::empty(), TokMode::CommentDash2)
            } else {
                (Seq::<XmlEventView>::empty(), TokMode::Comment)
            }
        },
        TokMode::CommentDash2 => {
            if c == '>' {
                (Seq::<XmlEventView>::empty(), TokMode::Outside { text: None })
            } else if c == '-' {
                (Seq::<XmlEventView>::empty(), TokMode::CommentDash2)
            } else {
                (Seq::<XmlEventView>::empty(), TokMode::Comment)
            }
        },
        TokMode::Cdata => {
            if c == ']' {
                (Seq::<XmlEventView>::empty(), TokMode::CdataBracket)
            } else {
                (Seq::<XmlEventView>::empty(), TokMode::Cdata)
            }
        },
        TokMode::CdataBracket => {
            if c == ']' {
                (Seq::<XmlEventView>::empty(), TokMode::CdataBracket2)
            } else {
                (Seq::<XmlEventView>::empty(), TokMode::Cdata)
            }
        },
        TokMode::CdataBracket2 => {
            if c == '>' {
                (Seq::<XmlEventView>::empty(), TokMode::Outside { text: None })
            } else if c == ']' {
                (Seq::<XmlEventView>::empty(), TokMode::CdataBracket2)
            } else {
                (Seq::<XmlEventView>::empty(), TokMode::Cdata)
            }
        },
        TokMode::SkipTag => {
            if c == '>' {
                (Seq::<XmlEventView>::empty(), TokMode::Outside { text: None })
            } else {
                (Seq::<XmlEventView>::empty(), TokMode::SkipTag)
            }
        },
    }
}

/// At the end of the input, a pending text run is still emitted; a
/// pending tag is dropped.
pub open spec fn tok_finish(s: Seq<char>, m: TokMode) -> Seq<XmlEventView> {
    match m {
        TokMode::Outside { text } => match text {
            Some(p) => seq![XmlEventView::Text(s.subrange(p.0 as int, p.1 as int))],
            None => Seq::<XmlEventView>::empty(),
        },
        _ => Seq::<XmlEventView>::empty(),
    }
}

/// The events of `s` from position `i` on, starting in mode `m`.
pub open spec fn tok_from(s: Seq<char>, i: usize, m: TokMode) -> Seq<XmlEventView>
    decreases s.len() - i,
{
    if i >= s.len() {
        tok_finish(s, m)
    } else if i == usize::MAX {
        Seq::<XmlEventView>::empty()
    } else {
        let (evs, m2) = tok_step(s, m, i);
        evs + tok_from(s, (i + 1) as usize, m2)
    }
}

/// The token stream of a whole document.
pub open spec fn xml_events(s: Seq<char>) -> Seq<XmlEventView> {
    tok_from(s, 0, TokMode::Outside { text: None })
}

/// One executable step, mirroring `tok_step`.
fn tok_step_x(s: &str, m: TokMode, i: usize, events: &mut Vec<XmlEvent>) -> (m2: TokMode)
    requires
        i < s@.len(),
        s@.len() <= usize::MAX,
        mode_wf(m, i as int),
    ensures
        mode_wf(m2, i + 1),
        events_view(final(events)@) == events_view(old(events)@) + tok_step(s@, m, i).0,
        m2 == tok_step(s@, m, i).1,
{
    let c = s.get_char(i);
    let ghost step = tok_step(s@, m, i);
    let m2: TokMode = match m {
        TokMode::Outside { text } => {
            if c == '<' {
                if let Some(p) = text {
                    let t = s.substring_char(p.0, p.1).to_owned();
                    events.push(XmlEvent::Text(t));
                }
                TokMode::TagStart
            } else if c == ' ' || c == '\t' || c == '\n' || c == '\r' {
                TokMode::Outside { text }
            } else {
                let p2 = match text {
                    Some(p) => (p.0, i + 1),
                    None => (i, i + 1),
                };
                TokMode::Outside { text: Some(p2) }
            }
        },
        TokMode::TagStart => {
            if c == '/' {
                TokMode::CloseStart
            } else if c == '!' {
                TokMode::Bang
            } else if c == '?' {
                TokMode::SkipTag
            } else if c == '>' {
                TokMode::Outside { text: None }
            } else if c == ' ' || c == '\t' || c == '\n' || c == '\r' {
                TokMode::SkipTag
            } else {
                TokMode::Name { closing: false, start: i }
            }
        },
        TokMode::CloseStart => {
            if c == '>' {
                TokMode::Outside { text: None }
            } else if c == ' ' || c == '\t' || c == '\n' || c == '\r' {
                TokMode::SkipTag
            } else {
                TokMode::Name { closing: true, start: i }
            }
        },
        TokMode::Name { closing, start } => {
            if c == '>' {
                let name = s.substring_char(start, i).to_owned();
                if closing {
                    events.push(XmlEvent::Close(name));
                } else {
                    events.push(XmlEvent::Open(name));
                }
                TokMode::Outside { text: None }
            } else if c == '/' && !closing {
                TokMode::SelfEnd { ns: start, ne: i }
            } else if c == ' ' || c == '\t' || c == '\n' || c == '\r' {
                TokMode::InTag { closing, ns: start, ne: i }
            } else {
                TokMode::Name { closing, start }
            }
        },
        TokMode::InTag { closing, ns, ne } => {
            if c == '>' {
                let name = s.substring_char(ns, ne).to_owned();
                if closing {
                    events.push(XmlEvent::Close(name));
                } else {
                    events.push(XmlEvent::Open(name));
                }
                TokMode::Outside { text: None }
            } else if c == '/' && !closing {
                TokMode::SelfEnd { ns, ne }
            } else {
                TokMode::InTag { closing, ns, ne }
            }
        },
        TokMode::SelfEnd { ns, ne } => {
            if c == '>' {
                let name = s.substring_char(ns, ne).to_owned();
                let name2 = name.clone();
                events.push(XmlEvent::Open(name));
                events.push(XmlEvent::Close(name2));
                TokMode::Outside { text: None }
            } else {
                TokMode::InTag { closing: false, ns, ne }
            }
        },
        TokMode::Bang => {
            if c == '-' {
                TokMode::BangDash
            } else if c == '[' {
                TokMode::Cdata
            } else if c == '>' {
                TokMode::Outside { text: None }
            } else {
                TokMode::SkipTag
            }
        },
        TokMode::BangDash => {
            if c == '-' {
                TokMode::Comment
            } else if c == '>' {
                TokMode::Outside { text: None }
            } else {
                TokMode::SkipTag
            }
        },
        TokMode::Comment => {
            if c == '-' {
                TokMode::CommentDash
            } else {
                TokMode::Comment
            }
        },
        TokMode::CommentDash => {
            if c == '-' {
                TokMode::CommentDash2
            } else {
                TokMode::Comment
            }
        },
        TokMode::CommentDash2 => {
            if c == '>' {
                TokMode::Outside { text: None }
            } else if c == '-' {
                TokMode::CommentDash2
            } else {
                TokMode::Comment
            }
        },
        TokMode::Cdata => {
            if c == ']' {
                TokMode::CdataBracket
            } else {
                TokMode::Cdata
            }
        },
        TokMode::CdataBracket => {
            if c == ']' {
                TokMode::CdataBracket2
            } else {
                TokMode::Cdata
            }
        },
        TokMode::CdataBracket2 => {
            if c == '>' {
                TokMode::Outside { text: None }
            } else if c == ']' {
                TokMode::CdataBracket2
            } else {
                TokMode::Cdata
            }
        },
        TokMode::SkipTag => {
            if c == '>' {
                TokMode::Outside { text: None }
            } else {
                TokMode::SkipTag
            }
        },
    };
    proof {
        assert(events_view(events@) =~= events_view(old(events)@) + step.0);
    }
    m2
}

/// Tokenizes a whole document. Total: malformed input yields whatever
/// events could be recovered, never an error.
pub fn tokenize_xml(s: &str) -> (r: Vec<XmlEvent>)
    ensures
        events_view(r@) == xml_events(s@),
{
    let n = s.unicode_len();
    let mut events: Vec<XmlEvent> = Vec::new();
    let mut m = TokMode::Outside { text: None };
    let mut i: usize = 0;
    while i < n
        invariant
            n == s@.len(),
            n <= usize::MAX,
            i <= n,
            mode_wf(m, i as int),
            events_view(events@) + tok_from(s@, i, m) == xml_events(s@),
        decreases n - i,
    {
        let ghost evs0 = events_view(events@);
        let ghost step = tok_step(s@, m, i);
        let ghost m0 = m;
        m = tok_step_x(s, m, i, &mut events);
        proof {
            assert(tok_from(s@, i, m0) == step.0 + tok_from(s@, (i + 1) as usize, m));
        }
        i = i + 1;
        proof {
            assert(evs0 + (step.0 + tok_from(s@, i, m)) =~= (evs0 + step.0) + tok_from(s@, i, m));
        }
    }
    if let TokMode::Outside { text: Some(p) } = m {
        let t = s.substring_char(p.0, p.1).to_owned();
        events.push(XmlEvent::Text(t));
        proof {
            assert(events_view(events@) =~= xml_events(s@));
        }
    } else {
        proof {
            assert(events_view(events@) =~= xml_events(s@));
        }
    }
    events
}

} // verus!
