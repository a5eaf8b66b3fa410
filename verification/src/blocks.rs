//! Spec blocks of a Markdown document: each heading opens one, except a
//! `Symbol:` heading, which declares a code symbol of the block it stands in.
use vstd::prelude::*;
use vstd::utf8::encode_utf8;

use crate::decimal::{hex, hex_lower, lemma_hex_len};
use crate::text::{
    has_text, lowered, starts_with, str_starts_with, str_strip_prefix, str_to_lowercase, str_trim,
    strip_prefix, texts, trim,
};

verus! {

/// A block of a document: its heading, the text below it and the symbols it
/// declares.
#[derive(Debug, Clone, PartialEq, Eq)]
pub struct SpecBlock {
    pub doc_path: String,
    pub heading: String,
    pub spec_id: String,
    pub content: String,
    pub symbols: Vec<String>,
    pub block_signature: String,
}

/// Model of [`SpecBlock`].
#[verifier::ext_equal]
pub struct BlockView {
    pub doc_path: Seq<char>,
    pub heading: Seq<char>,
    pub spec_id: Seq<char>,
    pub content: Seq<char>,
    pub symbols: Seq<Seq<char>>,
    pub block_signature: Seq<char>,
}

impl View for SpecBlock {
    type V = BlockView;

    open spec fn view(&self) -> BlockView {
        BlockView {
            doc_path: self.doc_path@,
            heading: self.heading@,
            spec_id: self.spec_id@,
            content: self.content@,
            symbols: texts(self.symbols@),
            block_signature: self.block_signature@,
        }
    }
}

/// The models of some blocks, in order.
pub open spec fn block_views(v: Seq<SpecBlock>) -> Seq<BlockView> {
    v.map_values(|b: SpecBlock| b@)
}

/// The SHA-1 digest that the `sha1` crate computes.
pub uninterp spec fn sha1_of(bytes: Seq<u8>) -> Seq<u8>;

/// The SHA-1 digest of some bytes by `sha1::Sha1::digest`. Claimed: it has twenty
/// bytes and is a function of the input.
#[verifier::external_body]
fn sha1_digest(bytes: &[u8]) -> (r: Vec<u8>)
    ensures
        r@ == sha1_of(bytes@),
        r@.len() == 20,
{
    <sha1::Sha1 as sha1::Digest>::digest(bytes).to_vec()
}

/// The hexadecimal SHA-1 of a text's UTF-8 bytes.
pub open spec fn sha1_text(s: Seq<char>) -> Seq<char> {
    hex(sha1_of(encode_utf8(s)))
}

/// The hexadecimal SHA-1 of a text, forty characters.
pub fn sha1_hex(content: &str) -> (r: String)
    ensures
        r@ == sha1_text(content@),
        r@.len() == 40,
{
    let d = sha1_digest(content.as_bytes());
    proof {
        lemma_hex_len(d@);
    }
    hex_lower(&d)
}

/// The first twelve hexadecimal digits of a text's SHA-1.
pub fn sha1_12(content: &str) -> (r: String)
    ensures
        r@ == sha1_text(content@).take(12),
        r@.len() == 12,
{
    let h = sha1_hex(content);
    assert(h@.subrange(0, 12) =~= h@.take(12));
    h.as_str().substring_char(0, 12).to_owned()
}

/// The id of the block with a heading in a document: twelve hexadecimal digits
/// of the SHA-1 over the path's bytes and then the heading's.
pub open spec fn block_id(doc_path: Seq<char>, heading: Seq<char>) -> Seq<char> {
    hex(sha1_of(encode_utf8(doc_path) + encode_utf8(heading))).take(12)
}

/// The id of the block with a heading in a document.
pub fn spec_id_for(doc_path: &str, heading: &str) -> (r: String)
    ensures
        r@ == block_id(doc_path@, heading@),
        r@.len() == 12,
{
    let mut bytes = doc_path.as_bytes_vec();
    let mut more = heading.as_bytes_vec();
    bytes.append(&mut more);
    let d = sha1_digest(&bytes);
    proof {
        lemma_hex_len(d@);
    }
    let h = hex_lower(&d);
    assert(h@.subrange(0, 12) =~= h@.take(12));
    h.as_str().substring_char(0, 12).to_owned()
}

/// What a Markdown parser reports, as far as blocks depend on it.
pub enum MdEvent {
    HeadingStart,
    HeadingEnd,
    Text(String),
    Code(String),
    Other,
}

/// Model of [`MdEvent`].
pub enum MdEventView {
    HeadingStart,
    HeadingEnd,
    Text(Seq<char>),
    Code(Seq<char>),
    Other,
}

impl View for MdEvent {
    type V = MdEventView;

    open spec fn view(&self) -> MdEventView {
        match self {
            MdEvent::HeadingStart => MdEventView::HeadingStart,
            MdEvent::HeadingEnd => MdEventView::HeadingEnd,
            MdEvent::Text(t) => MdEventView::Text(t@),
            MdEvent::Code(t) => MdEventView::Code(t@),
            MdEvent::Other => MdEventView::Other,
        }
    }
}

/// The models of some events, in order.
pub open spec fn event_views(v: Seq<MdEvent>) -> Seq<MdEventView> {
    v.map_values(|e: MdEvent| e@)
}

/// The events that `pulldown_cmark` reports for a text.
pub uninterp spec fn markdown_events_of(text: Seq<char>) -> Seq<MdEventView>;

/// The events of a Markdown text by `pulldown_cmark::Parser::new`, each turned
/// into an [`MdEvent`]. Claimed: they are a function of the text.
#[verifier::external_body]
fn markdown_events(text: &str) -> (r: Vec<MdEvent>)
    ensures
        event_views(r@) == markdown_events_of(text@),
{
    pulldown_cmark::Parser::new(text).map(|e| match e {
        pulldown_cmark::Event::Start(pulldown_cmark::Tag::Heading { .. }) => MdEvent::HeadingStart,
        pulldown_cmark::Event::End(pulldown_cmark::TagEnd::Heading(_)) => MdEvent::HeadingEnd,
        pulldown_cmark::Event::Text(t) => MdEvent::Text(t.to_string()),
        pulldown_cmark::Event::Code(t) => MdEvent::Code(t.to_string()),
        _ => MdEvent::Other,
    }).collect()
}

/// How far a document has been read.
#[verifier::ext_equal]
pub struct Scan {
    pub done: Seq<BlockView>,
    pub current: Option<BlockView>,
    pub in_heading: bool,
    pub heading: Seq<char>,
    pub content: Seq<char>,
}

/// A document of which nothing has been read.
pub open spec fn scan_start() -> Scan {
    Scan {
        done: Seq::empty(),
        current: None,
        in_heading: false,
        heading: Seq::empty(),
        content: Seq::empty(),
    }
}

/// A block that has just been opened.
pub open spec fn opened(doc_path: Seq<char>, heading: Seq<char>) -> BlockView {
    BlockView {
        doc_path,
        heading,
        spec_id: block_id(doc_path, heading),
        content: Seq::empty(),
        symbols: Seq::empty(),
        block_signature: Seq::empty(),
    }
}

/// A block with the text that was read below its heading.
pub open spec fn closed_block(b: BlockView, content: Seq<char>) -> BlockView {
    BlockView { content, block_signature: sha1_text(content), ..b }
}

/// `s` with the open block, if any, closed and put behind the finished ones.
pub open spec fn close_current(s: Scan) -> Scan {
    match s.current {
        Some(b) => Scan {
            done: s.done.push(closed_block(b, s.content)),
            current: None,
            content: Seq::empty(),
            ..s
        },
        None => s,
    }
}

/// `b` with a symbol, once.
pub open spec fn with_symbol(b: BlockView, symbol: Seq<char>) -> BlockView {
    if symbol.len() == 0 || b.symbols.contains(symbol) {
        b
    } else {
        BlockView { symbols: b.symbols.push(symbol), ..b }
    }
}

/// The end of a heading: it declares a symbol of the open block, or it closes
/// that block and opens its own.
pub open spec fn end_heading(s: Scan, doc_path: Seq<char>) -> Scan {
    let heading = trim(s.heading);
    let s = Scan { in_heading: false, ..s };
    match strip_prefix(heading, "Symbol:"@) {
        Some(rest) => Scan {
            current: match s.current {
                Some(b) => Some(with_symbol(b, trim(rest))),
                None => None,
            },
            ..s
        },
        None => Scan { current: Some(opened(doc_path, heading)), ..close_current(s) },
    }
}

/// Some text: part of the heading, or a line of the open block's content.
pub open spec fn take_text(s: Scan, t: Seq<char>) -> Scan {
    if s.in_heading {
        Scan { heading: s.heading + t, ..s }
    } else if s.current is Some {
        Scan { content: (s.content + t).push('\n'), ..s }
    } else {
        s
    }
}

/// One event.
pub open spec fn scan_step(s: Scan, e: MdEventView, doc_path: Seq<char>) -> Scan {
    match e {
        MdEventView::HeadingStart => Scan { in_heading: true, heading: Seq::empty(), ..s },
        MdEventView::HeadingEnd => end_heading(s, doc_path),
        MdEventView::Text(t) => take_text(s, t),
        MdEventView::Code(t) => take_text(s, t),
        MdEventView::Other => s,
    }
}

/// The events, one after the other.
pub open spec fn scan(events: Seq<MdEventView>, doc_path: Seq<char>) -> Scan
    decreases events.len(),
{
    if events.len() == 0 {
        scan_start()
    } else {
        scan_step(scan(events.drop_last(), doc_path), events.last(), doc_path)
    }
}

/// The blocks of a document given by its events.
pub open spec fn blocks_of(events: Seq<MdEventView>, doc_path: Seq<char>) -> Seq<BlockView> {
    close_current(scan(events, doc_path)).done
}

/// The model of an optional block.
pub open spec fn opt_block(b: Option<SpecBlock>) -> Option<BlockView> {
    match b {
        Some(b) => Some(b@),
        None => None,
    }
}

fn close(block: SpecBlock, content: String) -> (r: SpecBlock)
    ensures
        r@ == closed_block(block@, content@),
{
    let signature = sha1_hex(content.as_str());
    let mut b = block;
    b.content = content;
    b.block_signature = signature;
    b
}

fn declare(block: SpecBlock, symbol: &str) -> (r: SpecBlock)
    ensures
        r@ == with_symbol(block@, symbol@),
{
    let mut b = block;
    if !symbol.is_empty() && !has_text(&b.symbols, symbol) {
        let ghost before = b.symbols@;
        b.symbols.push(symbol.to_owned());
        assert(texts(b.symbols@) =~= texts(before).push(symbol@));
    }
    b
}

fn open_block(doc_path: &str, heading: &str) -> (r: SpecBlock)
    ensures
        r@ == opened(doc_path@, heading@),
{
    let r = SpecBlock {
        doc_path: doc_path.to_owned(),
        heading: heading.to_owned(),
        spec_id: spec_id_for(doc_path, heading),
        content: String::new(),
        symbols: Vec::new(),
        block_signature: String::new(),
    };
    assert(texts(r.symbols@) =~= Seq::<Seq<char>>::empty());
    r
}

/// The blocks of a document given by its events.
pub fn blocks_from_events(events: &[MdEvent], doc_path: &str) -> (blocks: Vec<SpecBlock>)
    ensures
        block_views(blocks@) == blocks_of(event_views(events@), doc_path@),
{
    let ghost ev = event_views(events@);
    let mut done: Vec<SpecBlock> = Vec::new();
    let mut current: Option<SpecBlock> = None;
    let mut in_heading: bool = false;
    let mut heading = String::new();
    let mut content = String::new();
    let mut i: usize = 0;
    assert(block_views(done@) =~= scan_start().done);
    assert(ev.take(0).len() == 0);
    while i < events.len()
        invariant
            i <= events.len(),
            ev == event_views(events@),
            (Scan {
                done: block_views(done@),
                current: opt_block(current),
                in_heading,
                heading: heading@,
                content: content@,
            }) == scan(ev.take(i as int), doc_path@),
        decreases events.len() - i,
    {
        let ghost s = scan(ev.take(i as int), doc_path@);
        let ghost done0 = done@;
        assert(ev.take(i + 1).drop_last() =~= ev.take(i as int));
        assert(ev.take(i + 1).last() == events@[i as int]@);
        match &events[i] {
            MdEvent::HeadingStart => {
                in_heading = true;
                heading = String::new();
            },
            MdEvent::HeadingEnd => {
                in_heading = false;
                let title = str_trim(heading.as_str());
                match str_strip_prefix(title, "Symbol:") {
                    Some(rest) => {
                        current =
                        match current {
                            Some(b) => Some(declare(b, str_trim(rest))),
                            None => None,
                        };
                    },
                    None => {
                        if let Some(b) = current {
                            let finished = close(b, content);
                            content = String::new();
                            done.push(finished);
                            assert(block_views(done@) =~= block_views(done0).push(finished@));
                        }
                        current = Some(open_block(doc_path, title));
                    },
                }
            },
            MdEvent::Text(t) => {
                if in_heading {
                    heading.append(t.as_str());
                } else if current.is_some() {
                    content.append(t.as_str());
                    content.push('\n');
                }
            },
            MdEvent::Code(t) => {
                if in_heading {
                    heading.append(t.as_str());
                } else if current.is_some() {
                    content.append(t.as_str());
                    content.push('\n');
                }
            },
            MdEvent::Other => {},
        }
        i += 1;
    }
    assert(ev.take(i as int) =~= ev);
    let ghost done1 = done@;
    if let Some(b) = current {
        let finished = close(b, content);
        done.push(finished);
        assert(block_views(done@) =~= block_views(done1).push(finished@));
    }
    done
}

/// The blocks of a Markdown text.
pub fn extract_blocks(markdown: &str, doc_path: &str) -> (blocks: Vec<SpecBlock>)
    ensures
        block_views(blocks@) == blocks_of(markdown_events_of(markdown@), doc_path@),
{
    let events = markdown_events(markdown);
    blocks_from_events(&events, doc_path)
}

/// Whether a lower-cased heading declares a symbol.
pub fn is_symbol_text(lowered: &str) -> (r: bool)
    ensures
        r == starts_with(lowered@, "symbol:"@),
{
    str_starts_with(lowered, "symbol:")
}

/// Whether a heading declares a symbol, in any case of letters.
pub fn is_symbol_heading(heading_text: &str) -> (r: bool)
    ensures
        r == starts_with(lowered(trim(heading_text@)), "symbol:"@),
{
    let text = str_to_lowercase(str_trim(heading_text));
    is_symbol_text(text.as_str())
}

/// The level of a heading.
#[derive(Debug, Clone, Copy, PartialEq, Eq, Structural)]
pub enum HeadingLevel {
    H1,
    H2,
    H3,
    H4,
    H5,
    H6,
}

/// The number of a heading's level, from 1 to 6.
pub fn heading_level_of(level: HeadingLevel) -> (r: u8)
    ensures
        r == (match level {
            HeadingLevel::H1 => 1u8,
            HeadingLevel::H2 => 2u8,
            HeadingLevel::H3 => 3u8,
            HeadingLevel::H4 => 4u8,
            HeadingLevel::H5 => 5u8,
            HeadingLevel::H6 => 6u8,
        }),
{
    match level {
        HeadingLevel::H1 => 1,
        HeadingLevel::H2 => 2,
        HeadingLevel::H3 => 3,
        HeadingLevel::H4 => 4,
        HeadingLevel::H5 => 5,
        HeadingLevel::H6 => 6,
    }
}

/// What every block of a document has in common: the document's path, the id of
/// its heading, the signature of its content, no `Symbol:` heading, and symbols
/// that are not empty and differ from each other.
pub open spec fn is_block_of(b: BlockView, doc_path: Seq<char>) -> bool {
    &&& b.doc_path == doc_path
    &&& b.spec_id == block_id(doc_path, b.heading)
    &&& b.block_signature == sha1_text(b.content)
    &&& is_open_block_of(b, doc_path)
}

/// What holds of a block as soon as its heading is read.
pub open spec fn is_open_block_of(b: BlockView, doc_path: Seq<char>) -> bool {
    &&& b.doc_path == doc_path
    &&& b.spec_id == block_id(doc_path, b.heading)
    &&& !starts_with(b.heading, "Symbol:"@)
    &&& forall|i: int| 0 <= i < b.symbols.len() ==> (#[trigger] b.symbols[i]).len() > 0
    &&& forall|i: int, j: int|
        0 <= i < j < b.symbols.len() ==> #[trigger] b.symbols[i] != #[trigger] b.symbols[j]
}

proof fn lemma_scan(events: Seq<MdEventView>, doc_path: Seq<char>)
    ensures
        ({
            let s = scan(events, doc_path);
            &&& forall|i: int| 0 <= i < s.done.len() ==> is_block_of(#[trigger] s.done[i], doc_path)
            &&& s.current matches Some(b) ==> is_open_block_of(b, doc_path)
        }),
    decreases events.len(),
{
    if events.len() > 0 {
        lemma_scan(events.drop_last(), doc_path);
        let s = scan(events.drop_last(), doc_path);
        if let MdEventView::HeadingEnd = events.last() {
            let heading = trim(s.heading);
            let n = end_heading(s, doc_path);
            if strip_prefix(heading, "Symbol:"@) is None {
                assert forall|i: int| 0 <= i < n.done.len() implies is_block_of(
                    #[trigger] n.done[i],
                    doc_path,
                ) by {
                    if i < s.done.len() {
                        assert(n.done[i] == s.done[i]);
                    }
                }
            }
        }
    }
}

/// Every block names its document and its heading by its id, is signed with the
/// SHA-1 of its content, and declares no symbol twice.
pub proof fn law_blocks_are_consistent(
    events: Seq<MdEventView>,
    doc_path: Seq<char>,
    i: int,
)
    requires
        0 <= i < blocks_of(events, doc_path).len(),
    ensures
        is_block_of(blocks_of(events, doc_path)[i], doc_path),
{
    lemma_scan(events, doc_path);
}

/// Whether the end of some events lies outside of a heading: every heading that started has
/// ended since.
pub open spec fn is_outside(events: Seq<MdEventView>) -> bool {
    forall|i: int|
        0 <= i < events.len() && (#[trigger] events[i]) is HeadingStart ==> exists|j: int|
            i < j < events.len() && (#[trigger] events[j]) is HeadingEnd
}

/// The text that an event brings, be it plain or code.
pub open spec fn words_in(e: MdEventView) -> Seq<char> {
    match e {
        MdEventView::Text(t) => t,
        MdEventView::Code(t) => t,
        _ => Seq::empty(),
    }
}

/// Whether an event brings text.
pub open spec fn has_words(e: MdEventView) -> bool {
    e is Text || e is Code
}

/// The texts that some events bring, in order, each with `end` behind it.
pub open spec fn words_of(events: Seq<MdEventView>, end: Seq<char>) -> Seq<char>
    decreases events.len(),
{
    if events.len() == 0 {
        Seq::empty()
    } else if has_words(events.last()) {
        words_of(events.drop_last(), end) + (words_in(events.last()) + end)
    } else {
        words_of(events.drop_last(), end)
    }
}

/// Whether no heading starts or ends among some events.
pub open spec fn is_flat(events: Seq<MdEventView>) -> bool {
    forall|i: int|
        0 <= i < events.len() ==> !((#[trigger] events[i]) is HeadingStart) && !(
        events[i] is HeadingEnd)
}

proof fn lemma_outside(events: Seq<MdEventView>, doc_path: Seq<char>)
    ensures
        scan(events, doc_path).in_heading <==> !is_outside(events),
        scan(events, doc_path).done.len() > 0 ==> scan(events, doc_path).current is Some,
        scan(events, doc_path).current is None ==> scan(events, doc_path).content.len() == 0,
    decreases events.len(),
{
    if events.len() > 0 {
        let init = events.drop_last();
        let last = events.last();
        lemma_outside(init, doc_path);
        assert forall|i: int| 0 <= i < init.len() implies init[i] == #[trigger] events[i] by {}
        let n = events.len() - 1;
        assert(events[n] == last);
        if last is HeadingStart {
            assert(!is_outside(events)) by {
                if is_outside(events) {
                    assert(events[n] is HeadingStart);
                }
            }
        } else if last is HeadingEnd {
            assert(is_outside(events)) by {
                assert(events[n] is HeadingEnd);
            }
        } else {
            if is_outside(events) {
                assert forall|i: int|
                    0 <= i < init.len() && (#[trigger] init[i]) is HeadingStart implies exists|j: int|
                    i < j < init.len() && (#[trigger] init[j]) is HeadingEnd by {
                    assert(events[i] is HeadingStart);
                    let j = choose|j: int|
                        i < j < events.len() && (#[trigger] events[j]) is HeadingEnd;
                    assert(init[j] is HeadingEnd);
                }
            }
            if is_outside(init) {
                assert forall|i: int|
                    0 <= i < events.len() && (#[trigger] events[i]) is HeadingStart implies exists|
                    j: int,
                |
                    i < j < events.len() && (#[trigger] events[j]) is HeadingEnd by {
                    assert(init[i] is HeadingStart);
                    let j = choose|j: int| i < j < init.len() && (#[trigger] init[j]) is HeadingEnd;
                    assert(events[j] is HeadingEnd);
                }
            }
        }
    }
}

/// Text and code outside of headings belong to the block they stand in: each is put behind
/// its content, with the end of a line, and nothing else changes but the signature, which
/// is that of the new content. In front of the first block they are passed over.
pub proof fn law_text_and_code_are_content(
    events: Seq<MdEventView>,
    doc_path: Seq<char>,
    e: MdEventView,
    t: Seq<char>,
)
    requires
        is_outside(events),
        e == MdEventView::Text(t) || e == MdEventView::Code(t),
    ensures
        ({
            let old_blocks = blocks_of(events, doc_path);
            let new_blocks = blocks_of(events.push(e), doc_path);
            &&& new_blocks.len() == old_blocks.len()
            &&& old_blocks.len() > 0 ==> {
                &&& new_blocks.drop_last() == old_blocks.drop_last()
                &&& new_blocks.last().content == old_blocks.last().content + t + seq!['\n']
                &&& new_blocks.last().block_signature == sha1_text(new_blocks.last().content)
                &&& new_blocks.last().heading == old_blocks.last().heading
                &&& new_blocks.last().doc_path == old_blocks.last().doc_path
                &&& new_blocks.last().spec_id == old_blocks.last().spec_id
                &&& new_blocks.last().symbols == old_blocks.last().symbols
            }
        }),
{
    let all = events.push(e);
    assert(all.drop_last() =~= events);
    lemma_outside(events, doc_path);
    let s = scan(events, doc_path);
    let n = scan(all, doc_path);
    if s.current is Some {
        assert(blocks_of(all, doc_path).drop_last() =~= s.done);
        assert(blocks_of(events, doc_path).drop_last() =~= s.done);
        assert((s.content + t).push('\n') =~= s.content + t + seq!['\n']);
    }
}

/// The start of a heading, the text inside one, and every event that is neither text nor
/// part of a heading change no block.
pub proof fn law_other_events_change_no_block(
    events: Seq<MdEventView>,
    doc_path: Seq<char>,
    e: MdEventView,
)
    requires
        e is HeadingStart || e is Other || (!is_outside(events) && has_words(e)),
    ensures
        blocks_of(events.push(e), doc_path) == blocks_of(events, doc_path),
        blocks_of(Seq::empty(), doc_path) == Seq::<BlockView>::empty(),
{
    let all = events.push(e);
    assert(all.drop_last() =~= events);
    lemma_outside(events, doc_path);
}

proof fn lemma_heading_words(
    events: Seq<MdEventView>,
    doc_path: Seq<char>,
    parts: Seq<MdEventView>,
)
    requires
        is_flat(parts),
    ensures
        ({
            let s = scan(events, doc_path);
            let n = scan(events.push(MdEventView::HeadingStart) + parts, doc_path);
            n == (Scan { in_heading: true, heading: words_of(parts, Seq::empty()), ..s })
        }),
    decreases parts.len(),
{
    let head = events.push(MdEventView::HeadingStart);
    let all = head + parts;
    let s = scan(events, doc_path);
    assert(head.drop_last() =~= events);
    if parts.len() == 0 {
        assert(all =~= head);
    } else {
        let init = parts.drop_last();
        assert forall|i: int| 0 <= i < init.len() implies !((#[trigger] init[i]) is HeadingStart)
            && !(init[i] is HeadingEnd) by {
            assert(init[i] == parts[i]);
        }
        lemma_heading_words(events, doc_path, init);
        assert(all.drop_last() =~= head + init);
        assert(all.last() == parts.last());
        assert(parts[parts.len() - 1] == parts.last());
        let e = Seq::<char>::empty();
        assert(words_in(parts.last()) + e =~= words_in(parts.last()));
    }
}

/// A heading opens a block behind those before it, which are finished and stay as they are.
/// Its heading is all the text inside it, code too, without white space around it; its id
/// is that of the document and the heading; nothing is in it yet.
pub proof fn law_a_heading_opens_a_block(
    events: Seq<MdEventView>,
    doc_path: Seq<char>,
    parts: Seq<MdEventView>,
)
    requires
        is_flat(parts),
        !starts_with(trim(words_of(parts, Seq::empty())), "Symbol:"@),
    ensures
        ({
            let old_blocks = blocks_of(events, doc_path);
            let new_blocks = blocks_of(
                (events.push(MdEventView::HeadingStart) + parts).push(MdEventView::HeadingEnd),
                doc_path,
            );
            let b = new_blocks.last();
            let heading = trim(words_of(parts, Seq::empty()));
            &&& new_blocks.len() == old_blocks.len() + 1
            &&& new_blocks.drop_last() == old_blocks
            &&& b.heading == heading
            &&& b.doc_path == doc_path
            &&& b.spec_id == hex(sha1_of(encode_utf8(doc_path) + encode_utf8(heading))).take(12)
            &&& b.content == Seq::<char>::empty()
            &&& b.symbols == Seq::<Seq<char>>::empty()
            &&& b.block_signature == sha1_text(Seq::empty())
        }),
{
    let body = events.push(MdEventView::HeadingStart) + parts;
    let all = body.push(MdEventView::HeadingEnd);
    assert(all.drop_last() =~= body);
    lemma_heading_words(events, doc_path, parts);
    lemma_outside(events, doc_path);
    let s = scan(events, doc_path);
    let new_blocks = blocks_of(all, doc_path);
    let old_blocks = blocks_of(events, doc_path);
    assert(close_current(s).content =~= Seq::<char>::empty());
    assert(new_blocks.drop_last() =~= old_blocks);
}

/// A heading that starts with `Symbol:` opens no block: what follows the colon, without
/// white space around it, is a symbol of the block it stands in, behind those it has,
/// unless it is empty or among them; nothing else changes.
pub proof fn law_a_symbol_heading_declares_a_symbol(
    events: Seq<MdEventView>,
    doc_path: Seq<char>,
    parts: Seq<MdEventView>,
    rest: Seq<char>,
)
    requires
        is_flat(parts),
        trim(words_of(parts, Seq::empty())) == "Symbol:"@ + rest,
    ensures
        ({
            let old_blocks = blocks_of(events, doc_path);
            let new_blocks = blocks_of(
                (events.push(MdEventView::HeadingStart) + parts).push(MdEventView::HeadingEnd),
                doc_path,
            );
            let b = new_blocks.last();
            let old_b = old_blocks.last();
            let symbol = trim(rest);
            &&& new_blocks.len() == old_blocks.len()
            &&& old_blocks.len() > 0 ==> {
                &&& new_blocks.drop_last() == old_blocks.drop_last()
                &&& symbol.len() > 0 && !old_b.symbols.contains(symbol) ==> b.symbols
                    == old_b.symbols.push(symbol)
                &&& symbol.len() == 0 || old_b.symbols.contains(symbol) ==> b.symbols
                    == old_b.symbols
                &&& b.content == old_b.content
                &&& b.block_signature == old_b.block_signature
                &&& b.heading == old_b.heading
                &&& b.doc_path == old_b.doc_path
                &&& b.spec_id == old_b.spec_id
            }
        }),
{
    let body = events.push(MdEventView::HeadingStart) + parts;
    let all = body.push(MdEventView::HeadingEnd);
    assert(all.drop_last() =~= body);
    lemma_heading_words(events, doc_path, parts);
    lemma_outside(events, doc_path);
    let s = scan(events, doc_path);
    let heading = "Symbol:"@ + rest;
    assert(heading.take("Symbol:"@.len() as int) =~= "Symbol:"@);
    assert(heading.skip("Symbol:"@.len() as int) =~= rest);
    if s.current is Some {
        assert(blocks_of(all, doc_path).drop_last() =~= s.done);
        assert(blocks_of(events, doc_path).drop_last() =~= s.done);
    }
}

/// The content of a block is all the text and all the code below its heading, in order,
/// each with the end of a line behind it.
pub proof fn law_content_is_all_text_below_the_heading(
    events: Seq<MdEventView>,
    doc_path: Seq<char>,
    parts: Seq<MdEventView>,
    below: Seq<MdEventView>,
)
    requires
        is_flat(parts),
        is_flat(below),
        !starts_with(trim(words_of(parts, Seq::empty())), "Symbol:"@),
    ensures
        ({
            let head = (events.push(MdEventView::HeadingStart) + parts).push(
                MdEventView::HeadingEnd,
            );
            let blocks = blocks_of(head + below, doc_path);
            &&& blocks.len() == blocks_of(events, doc_path).len() + 1
            &&& blocks.drop_last() == blocks_of(events, doc_path)
            &&& blocks.last().heading == trim(words_of(parts, Seq::empty()))
            &&& blocks.last().content == words_of(below, seq!['\n'])
            &&& blocks.last().block_signature == sha1_text(words_of(below, seq!['\n']))
            &&& is_outside(head + below)
        }),
    decreases below.len(),
{
    let head = (events.push(MdEventView::HeadingStart) + parts).push(MdEventView::HeadingEnd);
    let all = head + below;
    assert(is_outside(all)) by {
        let k = head.len() - 1;
        assert(all[k] is HeadingEnd);
        assert forall|i: int|
            0 <= i < all.len() && (#[trigger] all[i]) is HeadingStart implies exists|j: int|
            i < j < all.len() && (#[trigger] all[j]) is HeadingEnd by {
            if i > k {
                assert(all[i] == below[i - head.len()]);
            }
            assert(all[k] is HeadingEnd);
        }
    }
    if below.len() == 0 {
        assert(all =~= head);
        law_a_heading_opens_a_block(events, doc_path, parts);
    } else {
        let init = below.drop_last();
        let e = below.last();
        assert forall|i: int| 0 <= i < init.len() implies !((#[trigger] init[i]) is HeadingStart)
            && !(init[i] is HeadingEnd) by {
            assert(init[i] == below[i]);
        }
        assert(below[below.len() - 1] == e);
        law_content_is_all_text_below_the_heading(events, doc_path, parts, init);
        assert(all =~= (head + init).push(e));
        if has_words(e) {
            law_text_and_code_are_content(head + init, doc_path, e, words_in(e));
            let c = words_of(init, seq!['\n']);
            assert(c + words_in(e) + seq!['\n'] =~= c + (words_in(e) + seq!['\n']));
        } else {
            law_other_events_change_no_block(head + init, doc_path, e);
        }
    }
}

/// Whatever follows, the blocks but the last stay as they are.
pub proof fn law_finished_blocks_stay(
    events: Seq<MdEventView>,
    doc_path: Seq<char>,
    more: Seq<MdEventView>,
    i: int,
)
    requires
        0 <= i < blocks_of(events, doc_path).len() - 1,
    ensures
        i < blocks_of(events + more, doc_path).len(),
        blocks_of(events + more, doc_path)[i] == blocks_of(events, doc_path)[i],
    decreases more.len(),
{
    lemma_done_stays(events, doc_path, more);
}

proof fn lemma_done_stays(
    events: Seq<MdEventView>,
    doc_path: Seq<char>,
    more: Seq<MdEventView>,
)
    ensures
        ({
            let s = scan(events, doc_path);
            let n = scan(events + more, doc_path);
            s.done.len() <= n.done.len() && forall|i: int|
                0 <= i < s.done.len() ==> #[trigger] n.done[i] == s.done[i]
        }),
    decreases more.len(),
{
    if more.len() == 0 {
        assert(events + more =~= events);
    } else {
        lemma_done_stays(events, doc_path, more.drop_last());
        assert((events + more).drop_last() =~= events + more.drop_last());
    }
}

/// The signature of a text is the SHA-1 of its UTF-8 bytes, all of them, in hexadecimal digits;
/// the id of a block that of the path's bytes and the heading's, of which twelve digits count.
pub proof fn law_signatures(s: Seq<char>, doc_path: Seq<char>, heading: Seq<char>)
    ensures
        sha1_text(s) == hex(sha1_of(encode_utf8(s))),
        block_id(doc_path, heading) == hex(
            sha1_of(encode_utf8(doc_path) + encode_utf8(heading)),
        ).take(12),
{
}

}
