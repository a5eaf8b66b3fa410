//! Traceability between documents and code: link rows out of spec blocks, drift
//! audits in both directions, and the soft search that fills in where no link
//! exists.
use vstd::prelude::*;

use crate::blocks::{
    block_id, block_views, blocks_of, extract_blocks, law_blocks_are_consistent, markdown_events_of,
    spec_id_for, BlockView, SpecBlock,
};
use crate::graph::WorkspaceContext;
use crate::json::{json_rendered, no_fields, object, string, with_field, Json, JsonView};
use crate::order::{is_sorted, sort_strings};
use crate::packet::{
    emit_error_packet, emit_packet, error_packet_text, is_major_mismatch, major_mismatch, meta_of,
    packet_text, parse_meta, MetaView,
};
use crate::text::{
    bytes_text, contains, ends_with, has_text, lines, opt_text, same, starts_with, str_ends_with,
    str_starts_with, str_trim_end_char, text_from_bytes, texts, to_chars, trim_end_char,
};

verus! {

/// A link of a document's block to a code symbol.
#[derive(Debug, Clone, PartialEq, Eq)]
pub struct LinkRow {
    pub workspace_key: String,
    pub doc_path: String,
    pub spec_id: String,
    pub symbol: String,
    pub signature: String,
}

/// Model of [`LinkRow`].
#[verifier::ext_equal]
pub struct RowView {
    pub workspace_key: Seq<char>,
    pub doc_path: Seq<char>,
    pub spec_id: Seq<char>,
    pub symbol: Seq<char>,
    pub signature: Seq<char>,
}

impl View for LinkRow {
    type V = RowView;

    open spec fn view(&self) -> RowView {
        RowView {
            workspace_key: self.workspace_key@,
            doc_path: self.doc_path@,
            spec_id: self.spec_id@,
            symbol: self.symbol@,
            signature: self.signature@,
        }
    }
}

/// The models of some rows, in order.
pub open spec fn row_views(v: Seq<LinkRow>) -> Seq<RowView> {
    v.map_values(|r: LinkRow| r@)
}

/// The row that links a block to one of its symbols.
pub open spec fn link_row(workspace_key: Seq<char>, b: BlockView, symbol: Seq<char>) -> RowView {
    RowView {
        workspace_key,
        doc_path: b.doc_path,
        spec_id: b.spec_id,
        symbol,
        signature: b.block_signature,
    }
}

/// The rows of a block: one for each symbol it declares.
pub open spec fn rows_of_block(workspace_key: Seq<char>, b: BlockView) -> Seq<RowView> {
    b.symbols.map_values(|s: Seq<char>| link_row(workspace_key, b, s))
}

/// Appends the rows of a block.
pub fn push_rows(rows: &mut Vec<LinkRow>, workspace_key: &str, block: &SpecBlock)
    ensures
        row_views(final(rows)@) == row_views(old(rows)@) + rows_of_block(workspace_key@, block@),
{
    let ghost start = row_views(rows@);
    let ghost all = rows_of_block(workspace_key@, block@);
    let mut i: usize = 0;
    assert(row_views(rows@) =~= start + all.take(0));
    while i < block.symbols.len()
        invariant
            i <= block.symbols.len(),
            all == rows_of_block(workspace_key@, block@),
            row_views(rows@) == start + all.take(i as int),
        decreases block.symbols.len() - i,
    {
        let row = LinkRow {
            workspace_key: workspace_key.to_owned(),
            doc_path: block.doc_path.clone(),
            spec_id: block.spec_id.clone(),
            symbol: block.symbols[i].clone(),
            signature: block.block_signature.clone(),
        };
        let ghost before = rows@;
        rows.push(row);
        proof {
            assert(row@ == all[i as int]);
            assert(row_views(rows@) =~= row_views(before).push(row@));
            assert(all.take(i + 1) =~= all.take(i as int).push(all[i as int]));
            assert(start + all.take(i + 1) =~= (start + all.take(i as int)).push(all[i as int]));
        }
        i += 1;
    }
    assert(all.take(i as int) =~= all);
}

/// The rows of some blocks, block after block.
pub open spec fn rows_of_blocks(workspace_key: Seq<char>, blocks: Seq<BlockView>) -> Seq<RowView>
    decreases blocks.len(),
{
    if blocks.len() == 0 {
        Seq::empty()
    } else {
        rows_of_blocks(workspace_key, blocks.drop_last()) + rows_of_block(
            workspace_key,
            blocks.last(),
        )
    }
}

/// Appends the rows of some blocks.
pub fn push_block_rows(rows: &mut Vec<LinkRow>, workspace_key: &str, blocks: &Vec<SpecBlock>)
    ensures
        row_views(final(rows)@) == row_views(old(rows)@) + rows_of_blocks(
            workspace_key@,
            block_views(blocks@),
        ),
{
    let ghost start = row_views(rows@);
    let ghost bs = block_views(blocks@);
    let mut i: usize = 0;
    assert(bs.take(0).len() == 0);
    assert(row_views(rows@) =~= start + rows_of_blocks(workspace_key@, bs.take(0)));
    while i < blocks.len()
        invariant
            i <= blocks.len(),
            bs == block_views(blocks@),
            row_views(rows@) == start + rows_of_blocks(workspace_key@, bs.take(i as int)),
        decreases blocks.len() - i,
    {
        push_rows(rows, workspace_key, &blocks[i]);
        proof {
            assert(bs.take(i + 1).drop_last() =~= bs.take(i as int));
            assert(bs.take(i + 1).last() == blocks@[i as int]@);
            let a = rows_of_blocks(workspace_key@, bs.take(i as int));
            let b = rows_of_block(workspace_key@, blocks@[i as int]@);
            assert(start + a + b =~= start + (a + b));
        }
        i += 1;
    }
    assert(bs.take(i as int) =~= bs);
}

/// A document: its path below the workspace root, and its text where it could be
/// read.
pub struct DocFile {
    pub path: String,
    pub text: Option<String>,
}

/// The rows of a document; none where it is not Markdown or could not be read.
pub open spec fn rows_of_doc(workspace_key: Seq<char>, d: DocFile) -> Seq<RowView> {
    match d.text {
        Some(t) if is_markdown_name(d.path@) => rows_of_blocks(
            workspace_key,
            blocks_of(markdown_events_of(t@), d.path@),
        ),
        _ => Seq::empty(),
    }
}

/// The rows of some documents, document after document.
pub open spec fn rows_of_docs(workspace_key: Seq<char>, docs: Seq<DocFile>) -> Seq<RowView>
    decreases docs.len(),
{
    if docs.len() == 0 {
        Seq::empty()
    } else {
        rows_of_docs(workspace_key, docs.drop_last()) + rows_of_doc(workspace_key, docs.last())
    }
}

/// The link rows of some documents.
pub fn index_docs(docs: &[DocFile], workspace_key: &str) -> (rows: Vec<LinkRow>)
    ensures
        row_views(rows@) == rows_of_docs(workspace_key@, docs@),
{
    let mut rows: Vec<LinkRow> = Vec::new();
    let mut i: usize = 0;
    assert(docs@.take(0).len() == 0);
    assert(row_views(rows@) =~= rows_of_docs(workspace_key@, docs@.take(0)));
    while i < docs.len()
        invariant
            i <= docs.len(),
            row_views(rows@) == rows_of_docs(workspace_key@, docs@.take(i as int)),
        decreases docs.len() - i,
    {
        let ghost before = row_views(rows@);
        assert(before + Seq::<RowView>::empty() =~= before);
        if is_markdown(docs[i].path.as_str()) {
            if let Some(text) = &docs[i].text {
                let blocks = extract_blocks(text.as_str(), docs[i].path.as_str());
                push_block_rows(&mut rows, workspace_key, &blocks);
            }
        }
        proof {
            assert(docs@.take(i + 1).drop_last() =~= docs@.take(i as int));
        }
        i += 1;
    }
    assert(docs@.take(i as int) =~= docs@);
    rows
}

/// Whether a file name is that of a Markdown document.
pub open spec fn is_markdown_name(name: Seq<char>) -> bool {
    ends_with(name, ".md"@) || ends_with(name, ".markdown"@)
}

/// Whether a file name is that of a Markdown document.
pub fn is_markdown(name: &str) -> (r: bool)
    ensures
        r == is_markdown_name(name@),
{
    str_ends_with(name, ".md") || str_ends_with(name, ".markdown")
}

/// What to do with a directory entry while looking for documents.
#[derive(Debug, Clone, Copy, PartialEq, Eq, Structural)]
pub enum EntryAction {
    Skip,
    Descend,
    Take,
}

/// What to do with a directory entry: hidden ones are passed over, directories
/// are entered, Markdown files are taken.
pub open spec fn action_for(name: Seq<char>, is_dir: bool) -> EntryAction {
    if starts_with(name, "."@) {
        EntryAction::Skip
    } else if is_dir {
        EntryAction::Descend
    } else if is_markdown_name(name) {
        EntryAction::Take
    } else {
        EntryAction::Skip
    }
}

/// What to do with a directory entry.
pub fn entry_action(name: &str, is_dir: bool) -> (r: EntryAction)
    ensures
        r == action_for(name@, is_dir),
{
    if str_starts_with(name, ".") {
        EntryAction::Skip
    } else if is_dir {
        EntryAction::Descend
    } else if is_markdown(name) {
        EntryAction::Take
    } else {
        EntryAction::Skip
    }
}

/// No component of a relative path starts with a dot.
pub open spec fn is_visible(path: Seq<char>) -> bool {
    forall|i: int|
        0 <= i < path.len() && #[trigger] path[i] == '.' ==> i > 0 && path[i - 1] != '/'
}

/// A document that an index covers, by its path below the root.
pub open spec fn is_doc_path(path: Seq<char>) -> bool {
    is_visible(path) && is_markdown_name(path)
}

fn visible(path: &str) -> (r: bool)
    ensures
        r == is_visible(path@),
{
    let cs = to_chars(path);
    let mut i: usize = 0;
    while i < cs.len()
        invariant
            i <= cs.len(),
            cs@ == path@,
            forall|j: int|
                0 <= j < i && #[trigger] path@[j] == '.' ==> j > 0 && path@[j - 1] != '/',
        decreases cs.len() - i,
    {
        if cs[i] == '.' && (i == 0 || cs[i - 1] == '/') {
            assert(path@[i as int] == '.');
            return false;
        }
        i += 1;
    }
    true
}

/// The documents among the files found below a root: those that are Markdown and
/// not hidden, in ascending order.
pub fn discover_doc_paths(found: &Vec<String>) -> (r: Vec<String>)
    ensures
        is_sorted(texts(r@), false),
        texts(r@).to_multiset() == texts(found@).filter(
            |p: Seq<char>| is_doc_path(p),
        ).to_multiset(),
{
    let ghost pred = |p: Seq<char>| is_doc_path(p);
    let mut kept: Vec<String> = Vec::new();
    let mut i: usize = 0;
    let ghost all = texts(found@);
    proof {
        reveal(Seq::filter);
        assert(all.take(0).filter(pred) =~= texts(kept@));
    }
    while i < found.len()
        invariant
            i <= found.len(),
            all == texts(found@),
            pred == (|p: Seq<char>| is_doc_path(p)),
            texts(kept@) == all.take(i as int).filter(pred),
        decreases found.len() - i,
    {
        let ghost before = kept@;
        proof {
            reveal(Seq::filter);
            assert(all.take(i + 1).drop_last() =~= all.take(i as int));
            assert(all.take(i + 1).last() == found@[i as int]@);
        }
        if visible(found[i].as_str()) && is_markdown(found[i].as_str()) {
            kept.push(found[i].clone());
            assert(texts(kept@) =~= texts(before).push(found@[i as int]@));
        }
        i += 1;
    }
    assert(all.take(i as int) =~= all);
    sort_strings(kept, false)
}

/// How a link stands against its document or the code.
#[derive(Debug, Clone, Copy, PartialEq, Eq, Structural)]
pub enum DriftStatus {
    UpToDate,
    DocChanged,
    DocMissing,
    CodeMissing,
}

/// One finding of a drift audit.
#[derive(Debug, Clone, PartialEq, Eq)]
pub struct DriftItem {
    pub spec_id: String,
    pub doc_path: String,
    pub symbol: String,
    pub status: DriftStatus,
}

/// Model of [`DriftItem`].
#[verifier::ext_equal]
pub struct DriftView {
    pub spec_id: Seq<char>,
    pub doc_path: Seq<char>,
    pub symbol: Seq<char>,
    pub status: DriftStatus,
}

impl View for DriftItem {
    type V = DriftView;

    open spec fn view(&self) -> DriftView {
        DriftView {
            spec_id: self.spec_id@,
            doc_path: self.doc_path@,
            symbol: self.symbol@,
            status: self.status,
        }
    }
}

/// The models of some findings, in order.
pub open spec fn drift_views(v: Seq<DriftItem>) -> Seq<DriftView> {
    v.map_values(|d: DriftItem| d@)
}

/// The finding of a status for a row.
pub open spec fn drift_of(r: RowView, status: DriftStatus) -> DriftView {
    DriftView { spec_id: r.spec_id, doc_path: r.doc_path, symbol: r.symbol, status }
}

fn drift_item(row: &LinkRow, status: DriftStatus) -> (r: DriftItem)
    ensures
        r@ == drift_of(row@, status),
{
    DriftItem {
        spec_id: row.spec_id.clone(),
        doc_path: row.doc_path.clone(),
        symbol: row.symbol.clone(),
        status,
    }
}

/// Whether some block has an id.
pub open spec fn has_block(blocks: Seq<BlockView>, spec_id: Seq<char>) -> bool {
    exists|i: int| 0 <= i < blocks.len() && (#[trigger] blocks[i]).spec_id == spec_id
}

/// Whether some block has an id and a signature. Blocks of the same heading share
/// their id.
pub open spec fn has_signed_block(
    blocks: Seq<BlockView>,
    spec_id: Seq<char>,
    signature: Seq<char>,
) -> bool {
    exists|i: int|
        0 <= i < blocks.len() && (#[trigger] blocks[i]).spec_id == spec_id
            && blocks[i].block_signature == signature
}

/// How a row stands against the blocks of its document: missing where none has its id,
/// else up to date exactly where one of those has the indexed signature.
pub open spec fn status_in(row: RowView, blocks: Seq<BlockView>) -> DriftStatus {
    if !has_block(blocks, row.spec_id) {
        DriftStatus::DocMissing
    } else if has_signed_block(blocks, row.spec_id, row.signature) {
        DriftStatus::UpToDate
    } else {
        DriftStatus::DocChanged
    }
}

/// How a row stands against the text of its document.
pub open spec fn status_against(row: RowView, text: Option<Seq<char>>) -> DriftStatus {
    match text {
        None => DriftStatus::DocMissing,
        Some(t) => status_in(row, blocks_of(markdown_events_of(t), row.doc_path)),
    }
}

/// How a row stands against the blocks of its document.
pub fn drift_status(row: &LinkRow, blocks: &Vec<SpecBlock>) -> (r: DriftStatus)
    ensures
        r == status_in(row@, block_views(blocks@)),
{
    let ghost bs = block_views(blocks@);
    let mut found: bool = false;
    let mut i: usize = 0;
    while i < blocks.len()
        invariant
            i <= blocks.len(),
            bs == block_views(blocks@),
            found ==> has_block(bs, row.spec_id@),
            !found ==> forall|j: int| 0 <= j < i ==> (#[trigger] bs[j]).spec_id != row.spec_id@,
            forall|j: int|
                0 <= j < i && (#[trigger] bs[j]).spec_id == row.spec_id@ ==> bs[j].block_signature
                    != row.signature@,
        decreases blocks.len() - i,
    {
        assert(bs[i as int] == blocks@[i as int]@);
        if same(blocks[i].spec_id.as_str(), row.spec_id.as_str()) {
            found = true;
            if same(blocks[i].block_signature.as_str(), row.signature.as_str()) {
                return DriftStatus::UpToDate;
            }
        }
        i += 1;
    }
    if found {
        DriftStatus::DocChanged
    } else {
        DriftStatus::DocMissing
    }
}

/// The findings for the rows whose symbol is not known, in order.
pub open spec fn unknown_symbols(rows: Seq<RowView>, known: Seq<Seq<char>>) -> Seq<DriftView>
    decreases rows.len(),
{
    if rows.len() == 0 {
        Seq::empty()
    } else {
        let rest = unknown_symbols(rows.drop_last(), known);
        if known.contains(rows.last().symbol) {
            rest
        } else {
            rest.push(drift_of(rows.last(), DriftStatus::CodeMissing))
        }
    }
}

/// A hit of a soft search. The heading, where the server gives it, is the one in the
/// document, from which the block's id is found again.
#[derive(Debug, Clone, PartialEq, Eq)]
pub struct SearchHit {
    pub doc_path: String,
    pub spec_id: String,
    pub heading: Option<String>,
}

/// The row that stands for a hit: without a signature, and with the id of the
/// block that the heading names.
pub open spec fn hit_row(workspace_key: Seq<char>, symbol: Seq<char>, h: SearchHit) -> RowView {
    RowView {
        workspace_key,
        doc_path: h.doc_path@,
        spec_id: match h.heading {
            Some(heading) => block_id(h.doc_path@, heading@),
            None => h.spec_id@,
        },
        symbol,
        signature: Seq::empty(),
    }
}

/// The documents of a symbol: its link rows where there are any, else one row per hit of
/// the soft search, where one could be made.
pub open spec fn context_rows(
    workspace_key: Seq<char>,
    symbol: Seq<char>,
    hard: Seq<RowView>,
    soft: Option<Seq<SearchHit>>,
) -> Seq<RowView> {
    if hard.len() > 0 {
        hard
    } else {
        match soft {
            Some(hits) => hits.map_values(|h: SearchHit| hit_row(workspace_key, symbol, h)),
            None => Seq::empty(),
        }
    }
}

/// A server that searches documents by meaning.
pub trait SpecSearchBackend {
    /// The hits for a query in one workspace of the server.
    fn search(&self, od_workspace_id: &str, query: &str) -> Vec<SearchHit>;
}

/// The backend in use while no server is configured.
pub struct NoOpBackend;

impl SpecSearchBackend for NoOpBackend {
    /// Finds nothing.
    fn search(&self, od_workspace_id: &str, query: &str) -> (r: Vec<SearchHit>)
        ensures
            r@.len() == 0,
    {
        Vec::new()
    }
}

/// The backend that asks an OpenDocuments server.
pub struct RestBackend {
    pub base_url: String,
}

/// How many hits a search asks for.
pub const SEARCH_TOP_K: u64 = 5;

impl RestBackend {
    /// A backend for the server at a URL, kept without slashes at its end.
    pub fn new(base_url: &str) -> (r: RestBackend)
        ensures
            r.base_url@ == trim_end_char(base_url@, '/'),
    {
        RestBackend { base_url: str_trim_end_char(base_url, '/').to_owned() }
    }

    /// The URL that a search posts to.
    pub fn search_url(&self) -> (r: String)
        ensures
            r@ == self.base_url@ + "/api/v1/search"@,
    {
        let mut url = self.base_url.clone();
        url.append("/api/v1/search");
        url
    }

    /// The body that a search posts.
    pub fn search_request(query: &str) -> (r: Json)
        ensures
            r@ == JsonView::Object(
                seq![
                    ("query"@, JsonView::Str(query@)),
                    ("top_k"@, JsonView::UInt(SEARCH_TOP_K)),
                ],
            ),
    {
        let fs = with_field(no_fields(), "query", string(query));
        let fs = with_field(fs, "top_k", Json::UInt(SEARCH_TOP_K));
        let r = object(fs);
        assert(r@->Object_0 =~= seq![
            ("query"@, JsonView::Str(query@)),
            ("top_k"@, JsonView::UInt(SEARCH_TOP_K)),
        ]);
        r
    }
}

/// A base URL never ends in a slash, so making it a second time changes nothing.
pub proof fn law_base_url_is_stable(url: Seq<char>)
    ensures
        trim_end_char(trim_end_char(url, '/'), '/') == trim_end_char(url, '/'),
        trim_end_char(url, '/').len() > 0 ==> trim_end_char(url, '/').last() != '/',
    decreases url.len(),
{
    if url.len() > 0 && url.last() == '/' {
        law_base_url_is_stable(url.drop_last());
    }
}

/// The state that the plugin reports in a packet.
pub open spec fn opendoc_state(link_count: nat, od_workspace_id: Seq<char>) -> JsonView {
    JsonView::Object(
        seq![
            (
                "opendoc"@,
                JsonView::Object(
                    seq![
                        ("link_count"@, JsonView::UInt(link_count as u64)),
                        ("od_workspace_id"@, JsonView::Str(od_workspace_id)),
                    ],
                ),
            ),
        ],
    )
}

/// The state that the plugin reports in a packet.
pub fn state_json(link_count: usize, od_workspace_id: &str) -> (r: Json)
    ensures
        r@ == opendoc_state(link_count as nat, od_workspace_id@),
{
    let fs = with_field(no_fields(), "link_count", Json::UInt(link_count as u64));
    let fs = with_field(fs, "od_workspace_id", string(od_workspace_id));
    let inner = object(fs);
    assert(inner@->Object_0 =~= seq![
        ("link_count"@, JsonView::UInt(link_count as u64)),
        ("od_workspace_id"@, JsonView::Str(od_workspace_id@)),
    ]);
    let r = object(with_field(no_fields(), "opendoc", inner));
    assert(r@->Object_0 =~= seq![("opendoc"@, inner@)]);
    r
}

/// The answer to a packet's metadata, or to a sync without a packet: an error
/// for a packet of another MAJOR, the error that the packet reports, else the
/// plugin's own packet.
pub open spec fn sync_answer(incoming: Option<MetaView>, own: Seq<char>) -> Seq<char> {
    match incoming {
        None => own,
        Some(m) => match m.format_version {
            Some(fv) if is_major_mismatch(fv) => error_packet_text(
                "Major version mismatch: plugin v1 cannot read v"@ + fv,
            ),
            _ => match m.error {
                Some(e) => error_packet_text(e),
                None => own,
            },
        },
    }
}

/// Why an operation of the plugin failed.
pub enum Error {
    NotBound,
    Io(String),
    Sqlite(String),
}

impl Error {
    /// The text of the error.
    pub fn message(&self) -> (r: String)
        ensures
            r@ == (match self {
                Error::NotBound => "plugin not bound to a workspace context"@,
                Error::Io(e) => "io error: "@ + e@,
                Error::Sqlite(e) => "sqlite: "@ + e@,
            }),
    {
        match self {
            Error::NotBound => "plugin not bound to a workspace context".to_owned(),
            Error::Io(e) => {
                let mut m = "io error: ".to_owned();
                m.append(e.as_str());
                m
            },
            Error::Sqlite(e) => {
                let mut m = "sqlite: ".to_owned();
                m.append(e.as_str());
                m
            },
        }
    }
}

/// The plugin: unbound, or bound to a workspace.
pub struct OpendocPlugin {
    pub ctx: Option<WorkspaceContext>,
    pub registry_path: Option<String>,
}

impl OpendocPlugin {
    /// The key of the bound workspace; empty while unbound.
    pub open spec fn key(self) -> Seq<char> {
        match self.ctx {
            Some(c) => c.workspace_key@,
            None => ""@,
        }
    }

    /// A plugin that is not bound yet.
    pub fn new() -> (r: OpendocPlugin)
        ensures
            r.ctx is None,
            r.registry_path is None,
    {
        OpendocPlugin { ctx: None, registry_path: None }
    }

    /// The plugin with another registry.
    pub fn with_registry_path(self, path: &str) -> (r: OpendocPlugin)
        ensures
            opt_text(r.registry_path) == Some(path@),
            r.ctx == self.ctx,
    {
        OpendocPlugin { registry_path: Some(path.to_owned()), ..self }
    }

    /// The plugin's id.
    pub fn get_id(&self) -> (r: &'static str)
        ensures
            r@ == "graphify-plugin-opendoc"@,
    {
        "graphify-plugin-opendoc"
    }

    /// Binds the plugin to a workspace.
    pub fn bind(&mut self, ctx: WorkspaceContext)
        ensures
            final(self).ctx == Some(ctx),
            final(self).registry_path == old(self).registry_path,
    {
        self.ctx = Some(ctx);
    }

    /// The key of the bound workspace; empty while unbound.
    pub fn get_workspace_key(&self) -> (r: &str)
        ensures
            r@ == self.key(),
    {
        match &self.ctx {
            Some(c) => c.workspace_key.as_str(),
            None => "",
        }
    }

    /// The bound workspace.
    pub fn require_ctx(&self) -> (r: Result<&WorkspaceContext, Error>)
        ensures
            match r {
                Ok(c) => self.ctx == Some(*c),
                Err(e) => self.ctx is None && e is NotBound,
            },
    {
        match &self.ctx {
            Some(c) => Ok(c),
            None => Err(Error::NotBound),
        }
    }

    /// The link rows of some documents of the bound workspace.
    pub fn index_doc_paths(&self, docs: &[DocFile]) -> (r: Result<Vec<LinkRow>, Error>)
        ensures
            match r {
                Ok(rows) => self.ctx is Some && row_views(rows@) == rows_of_docs(
                    self.ctx->0.workspace_key@,
                    docs@,
                ),
                Err(e) => self.ctx is None && e is NotBound,
            },
    {
        match &self.ctx {
            Some(c) => Ok(index_docs(docs, c.workspace_key.as_str())),
            None => Err(Error::NotBound),
        }
    }

    /// The documents of a symbol: its link rows where there are any, else one row
    /// per hit of the soft search, where one could be made.
    pub fn fetch_code_to_doc_context(
        &self,
        symbol: &str,
        hard: Vec<LinkRow>,
        soft: Option<&Vec<SearchHit>>,
    ) -> (r: Result<Vec<LinkRow>, Error>)
        ensures
            match r {
                Ok(rows) => self.ctx is Some && row_views(rows@) == context_rows(
                    self.ctx->0.workspace_key@,
                    symbol@,
                    row_views(hard@),
                    match soft {
                        Some(hits) => Some(hits@),
                        None => None,
                    },
                ),
                Err(e) => self.ctx is None && e is NotBound,
            },
    {
        let workspace_key = match &self.ctx {
            Some(c) => c.workspace_key.as_str(),
            None => return Err(Error::NotBound),
        };
        if hard.len() > 0 {
            return Ok(hard);
        }
        let mut rows: Vec<LinkRow> = Vec::new();
        if let Some(hits) = soft {
            let ghost f = |h: SearchHit| hit_row(workspace_key@, symbol@, h);
            let mut i: usize = 0;
            assert(row_views(rows@) =~= hits@.take(0).map_values(f));
            while i < hits.len()
                invariant
                    i <= hits.len(),
                    f == (|h: SearchHit| hit_row(workspace_key@, symbol@, h)),
                    row_views(rows@) == hits@.take(i as int).map_values(f),
                decreases hits.len() - i,
            {
                let spec_id = match &hits[i].heading {
                    Some(heading) => spec_id_for(hits[i].doc_path.as_str(), heading.as_str()),
                    None => hits[i].spec_id.clone(),
                };
                let ghost before = rows@;
                let row = LinkRow {
                    workspace_key: workspace_key.to_owned(),
                    doc_path: hits[i].doc_path.clone(),
                    spec_id,
                    symbol: symbol.to_owned(),
                    signature: String::new(),
                };
                rows.push(row);
                proof {
                    assert(row@ == f(hits@[i as int]));
                    assert(row_views(rows@) =~= row_views(before).push(row@));
                    assert(hits@.take(i + 1) =~= hits@.take(i as int).push(hits@[i as int]));
                    assert(hits@.take(i + 1).map_values(f) =~= hits@.take(i as int).map_values(f).push(
                        f(hits@[i as int]),
                    ));
                }
                i += 1;
            }
            assert(hits@.take(i as int) =~= hits@);
        } else {
            assert(row_views(rows@) =~= Seq::<RowView>::empty());
        }
        Ok(rows)
    }

    /// The audit of documents: one finding per row, in order, given for each the
    /// text of its document.
    pub fn audit_drift(&self, rows: &[LinkRow], docs: &[Option<String>]) -> (r: Result<
        Vec<DriftItem>,
        Error,
    >)
        requires
            rows@.len() == docs@.len(),
        ensures
            match r {
                Ok(items) => self.ctx is Some && items@.len() == rows@.len() && forall|i: int|
                    0 <= i < rows@.len() ==> (#[trigger] items@[i])@ == drift_of(
                        rows@[i]@,
                        status_against(rows@[i]@, opt_text(docs@[i])),
                    ),
                Err(e) => self.ctx is None && e is NotBound,
            },
    {
        if self.ctx.is_none() {
            return Err(Error::NotBound);
        }
        let mut items: Vec<DriftItem> = Vec::new();
        let mut i: usize = 0;
        while i < rows.len()
            invariant
                i <= rows.len(),
                rows@.len() == docs@.len(),
                items@.len() == i,
                forall|j: int|
                    0 <= j < i ==> (#[trigger] items@[j])@ == drift_of(
                        rows@[j]@,
                        status_against(rows@[j]@, opt_text(docs@[j])),
                    ),
            decreases rows.len() - i,
        {
            let status = match &docs[i] {
                None => DriftStatus::DocMissing,
                Some(text) => {
                    let blocks = extract_blocks(text.as_str(), rows[i].doc_path.as_str());
                    drift_status(&rows[i], &blocks)
                },
            };
            items.push(drift_item(&rows[i], status));
            i += 1;
        }
        Ok(items)
    }

    /// The audit of code: a finding for each row whose symbol the code lacks.
    pub fn audit_code_missing(&self, rows: &[LinkRow], known_symbols: &Vec<String>) -> (r: Result<
        Vec<DriftItem>,
        Error,
    >)
        ensures
            match r {
                Ok(items) => self.ctx is Some && drift_views(items@) == unknown_symbols(
                    row_views(rows@),
                    texts(known_symbols@),
                ),
                Err(e) => self.ctx is None && e is NotBound,
            },
    {
        if self.ctx.is_none() {
            return Err(Error::NotBound);
        }
        let ghost rv = row_views(rows@);
        let mut items: Vec<DriftItem> = Vec::new();
        let mut i: usize = 0;
        assert(rv.take(0).len() == 0);
        assert(drift_views(items@) =~= unknown_symbols(rv.take(0), texts(known_symbols@)));
        while i < rows.len()
            invariant
                i <= rows.len(),
                rv == row_views(rows@),
                drift_views(items@) == unknown_symbols(rv.take(i as int), texts(known_symbols@)),
            decreases rows.len() - i,
        {
            let ghost before = items@;
            proof {
                assert(rv.take(i + 1).drop_last() =~= rv.take(i as int));
                assert(rv.take(i + 1).last() == rows@[i as int]@);
            }
            if !has_text(known_symbols, rows[i].symbol.as_str()) {
                let item = drift_item(&rows[i], DriftStatus::CodeMissing);
                items.push(item);
                assert(drift_views(items@) =~= drift_views(before).push(item@));
            }
            i += 1;
        }
        assert(rv.take(i as int) =~= rv);
        Ok(items)
    }

    /// The answer to a sync, given the bytes of the packet that comes in, if any.
    pub fn sync_toon(
        &self,
        link_count: usize,
        od_workspace_id: &str,
        incoming: Option<&[u8]>,
    ) -> (r: String)
        ensures
            r@ == sync_answer(
                match incoming {
                    Some(b) => Some(meta_of(lines(bytes_text(b@)))),
                    None => None,
                },
                packet_text(
                    self.key(),
                    json_rendered(opendoc_state(link_count as nat, od_workspace_id@)),
                ),
            ),
    {
        match incoming {
            Some(b) => {
                let text = text_from_bytes(b);
                self.sync_text(link_count, od_workspace_id, Some(text.as_str()))
            },
            None => self.sync_text(link_count, od_workspace_id, None),
        }
    }

    /// The answer to a sync, given the text of the packet that comes in, if any.
    pub fn sync_text(
        &self,
        link_count: usize,
        od_workspace_id: &str,
        incoming: Option<&str>,
    ) -> (r: String)
        ensures
            r@ == sync_answer(
                match incoming {
                    Some(t) => Some(meta_of(lines(t@))),
                    None => None,
                },
                packet_text(
                    self.key(),
                    json_rendered(opendoc_state(link_count as nat, od_workspace_id@)),
                ),
            ),
    {
        if let Some(toon) = incoming {
            let meta = parse_meta(toon);
            if let Some(fv) = &meta.format_version {
                if major_mismatch(fv.as_str()) {
                    let mut msg = "Major version mismatch: plugin v1 cannot read v".to_owned();
                    msg.append(fv.as_str());
                    return emit_error_packet(msg.as_str());
                }
            }
            if let Some(e) = &meta.error {
                return emit_error_packet(e.as_str());
            }
        }
        emit_packet(self.get_workspace_key(), &state_json(link_count, od_workspace_id))
    }
}

/// The workspace to search for a symbol: the mapped one, where the symbol has no link
/// rows.
pub fn search_in<'a>(hard: &Vec<LinkRow>, mapping: Option<&'a str>) -> (r: Option<&'a str>)
    ensures
        r == (if hard@.len() == 0 {
            mapping
        } else {
            None
        }),
{
    if hard.len() == 0 {
        mapping
    } else {
        None
    }
}

proof fn lemma_row_of_block(
    workspace_key: Seq<char>,
    blocks: Seq<BlockView>,
    k: int,
)
    requires
        0 <= k < rows_of_blocks(workspace_key, blocks).len(),
    ensures
        exists|i: int, j: int|
            0 <= i < blocks.len() && 0 <= j < blocks[i].symbols.len() && rows_of_blocks(
                workspace_key,
                blocks,
            )[k] == link_row(workspace_key, #[trigger] blocks[i], #[trigger] blocks[i].symbols[j]),
    decreases blocks.len(),
{
    let init = blocks.drop_last();
    let rest = rows_of_blocks(workspace_key, init);
    if k < rest.len() {
        lemma_row_of_block(workspace_key, init, k);
        let (i, j) = choose|i: int, j: int|
            0 <= i < init.len() && 0 <= j < init[i].symbols.len() && rest[k] == link_row(
                workspace_key,
                #[trigger] init[i],
                #[trigger] init[i].symbols[j],
            );
        assert(blocks[i] == init[i]);
        assert(blocks[i].symbols[j] == init[i].symbols[j]);
    } else {
        let i = blocks.len() - 1;
        let j = k - rest.len();
        assert(rows_of_block(workspace_key, blocks.last())[j] == link_row(
            workspace_key,
            blocks[i],
            blocks[i].symbols[j],
        ));
    }
}

/// Right after a document was indexed, each of its rows is up to date, whatever headings
/// it has.
pub proof fn law_fresh_index_is_up_to_date(workspace_key: Seq<char>, d: DocFile, k: int)
    requires
        0 <= k < rows_of_doc(workspace_key, d).len(),
    ensures
        rows_of_doc(workspace_key, d)[k].doc_path == d.path@,
        status_against(rows_of_doc(workspace_key, d)[k], opt_text(d.text)) == DriftStatus::UpToDate,
{
    let events = markdown_events_of(d.text->0@);
    let blocks = blocks_of(events, d.path@);
    let row = rows_of_doc(workspace_key, d)[k];
    lemma_row_of_block(workspace_key, blocks, k);
    let (i, j) = choose|i: int, j: int|
        0 <= i < blocks.len() && 0 <= j < blocks[i].symbols.len() && row == link_row(
            workspace_key,
            #[trigger] blocks[i],
            #[trigger] blocks[i].symbols[j],
        );
    law_blocks_are_consistent(events, d.path@, i);
    assert(blocks[i].spec_id == row.spec_id && blocks[i].block_signature == row.signature);
}

/// An audit of untouched documents finds every indexed link up to date: each row of the
/// index comes from one of the documents and is up to date against its text.
pub proof fn law_untouched_documents_are_up_to_date(
    workspace_key: Seq<char>,
    docs: Seq<DocFile>,
    k: int,
)
    requires
        0 <= k < rows_of_docs(workspace_key, docs).len(),
    ensures
        exists|i: int|
            0 <= i < docs.len() && (#[trigger] docs[i]).path@ == rows_of_docs(
                workspace_key,
                docs,
            )[k].doc_path && status_against(
                rows_of_docs(workspace_key, docs)[k],
                opt_text(docs[i].text),
            ) == DriftStatus::UpToDate,
    decreases docs.len(),
{
    let init = docs.drop_last();
    let rest = rows_of_docs(workspace_key, init);
    let row = rows_of_docs(workspace_key, docs)[k];
    if k < rest.len() {
        law_untouched_documents_are_up_to_date(workspace_key, init, k);
        let i = choose|i: int|
            0 <= i < init.len() && (#[trigger] init[i]).path@ == rest[k].doc_path && status_against(
                rest[k],
                opt_text(init[i].text),
            ) == DriftStatus::UpToDate;
        assert(docs[i] == init[i]);
    } else {
        law_fresh_index_is_up_to_date(workspace_key, docs.last(), k - rest.len());
        assert(docs[docs.len() - 1] == docs.last());
    }
}

proof fn lemma_unknown(rows: Seq<RowView>, known: Seq<Seq<char>>)
    ensures
        forall|k: int|
            0 <= k < unknown_symbols(rows, known).len() ==> (#[trigger] unknown_symbols(
                rows,
                known,
            )[k]).status == DriftStatus::CodeMissing && !known.contains(
                unknown_symbols(rows, known)[k].symbol,
            ),
        forall|i: int|
            0 <= i < rows.len() && !known.contains((#[trigger] rows[i]).symbol)
                ==> unknown_symbols(rows, known).contains(
                drift_of(rows[i], DriftStatus::CodeMissing),
            ),
    decreases rows.len(),
{
    if rows.len() > 0 {
        let rest = unknown_symbols(rows.drop_last(), known);
        lemma_unknown(rows.drop_last(), known);
        let all = unknown_symbols(rows, known);
        assert forall|i: int| 0 <= i < rows.len() && !known.contains(
            (#[trigger] rows[i]).symbol,
        ) implies all.contains(drift_of(rows[i], DriftStatus::CodeMissing)) by {
            let d = drift_of(rows[i], DriftStatus::CodeMissing);
            if i < rows.len() - 1 {
                assert(rows.drop_last()[i] == rows[i]);
                let k = choose|k: int| 0 <= k < rest.len() && rest[k] == d;
                assert(all[k] == d);
            } else {
                assert(all.last() == d);
            }
        }
    }
}

/// The audit of code reports exactly the rows with unknown symbols.
pub proof fn law_code_audit_is_exact(rows: Seq<RowView>, known: Seq<Seq<char>>, i: int)
    requires
        0 <= i < rows.len(),
    ensures
        unknown_symbols(rows, known).contains(drift_of(rows[i], DriftStatus::CodeMissing))
            <==> !known.contains(rows[i].symbol),
{
    lemma_unknown(rows, known);
    let d = drift_of(rows[i], DriftStatus::CodeMissing);
    if unknown_symbols(rows, known).contains(d) {
        let k = choose|k: int|
            0 <= k < unknown_symbols(rows, known).len() && unknown_symbols(rows, known)[k] == d;
        assert(!known.contains(unknown_symbols(rows, known)[k].symbol));
    }
}

/// A block has a row for each of its symbols, in order, which links the symbol to the block and
/// its document and carries the signature of the block; the rows of a further block go behind
/// those of the blocks before it.
pub proof fn law_every_symbol_has_a_row(
    workspace_key: Seq<char>,
    blocks: Seq<BlockView>,
    b: BlockView,
)
    ensures
        ({
            let before = rows_of_blocks(workspace_key, blocks);
            let all = rows_of_blocks(workspace_key, blocks.push(b));
            &&& all.len() == before.len() + b.symbols.len()
            &&& all.take(before.len() as int) == before
            &&& forall|j: int|
                0 <= j < b.symbols.len() ==> {
                    let row = all[before.len() + j];
                    &&& row.symbol == #[trigger] b.symbols[j]
                    &&& row.workspace_key == workspace_key
                    &&& row.doc_path == b.doc_path
                    &&& row.spec_id == b.spec_id
                    &&& row.signature == b.block_signature
                }
        }),
        rows_of_blocks(workspace_key, Seq::empty()).len() == 0,
{
    let before = rows_of_blocks(workspace_key, blocks);
    let all = rows_of_blocks(workspace_key, blocks.push(b));
    assert(blocks.push(b).drop_last() =~= blocks);
    assert(all.take(before.len() as int) =~= before);
    assert forall|j: int| 0 <= j < b.symbols.len() implies {
        let row = all[before.len() + j];
        &&& row.symbol == #[trigger] b.symbols[j]
        &&& row.workspace_key == workspace_key
        &&& row.doc_path == b.doc_path
        &&& row.spec_id == b.spec_id
        &&& row.signature == b.block_signature
    } by {
        assert(all[before.len() + j] == rows_of_block(workspace_key, b)[j]);
    }
}

/// Every document that is Markdown and could be read has the rows of its blocks, behind those
/// of the documents before it; any other document has none.
pub proof fn law_every_document_is_indexed(
    workspace_key: Seq<char>,
    docs: Seq<DocFile>,
    d: DocFile,
)
    ensures
        rows_of_docs(workspace_key, Seq::empty()).len() == 0,
        d.text is None ==> rows_of_docs(workspace_key, docs.push(d)) == rows_of_docs(
            workspace_key,
            docs,
        ),
        !is_markdown_name(d.path@) ==> rows_of_docs(workspace_key, docs.push(d)) == rows_of_docs(
            workspace_key,
            docs,
        ),
        d.text matches Some(t) ==> (is_markdown_name(d.path@) ==> rows_of_docs(
            workspace_key,
            docs.push(d),
        ) == rows_of_docs(workspace_key, docs) + rows_of_blocks(
            workspace_key,
            blocks_of(markdown_events_of(t@), d.path@),
        )),
{
    let before = rows_of_docs(workspace_key, docs);
    assert(docs.push(d).drop_last() =~= docs);
    assert(before + Seq::<RowView>::empty() =~= before);
}

/// A Markdown document is one whose name ends in `.md` or in `.markdown`.
pub proof fn law_markdown_names(name: Seq<char>)
    ensures
        is_markdown_name(name) <==> (exists|s: Seq<char>| name == #[trigger] (s + ".md"@)) || (
        exists|s: Seq<char>| name == #[trigger] (s + ".markdown"@)),
{
    crate::text::law_starts_and_ends(name, ".md"@);
    crate::text::law_starts_and_ends(name, ".markdown"@);
}

/// A document is found just where no part of its path is hidden, that is, starts with a dot.
pub proof fn law_hidden_paths(dir: Seq<char>, name: Seq<char>)
    requires
        !name.contains('/'),
    ensures
        is_visible(dir + seq!['/'] + name) <==> is_visible(dir) && (name.len() == 0 || name[0]
            != '.'),
        is_visible(name) <==> name.len() == 0 || name[0] != '.',
{
    let p = dir + seq!['/'] + name;
    let n = dir.len() as int;
    assert forall|i: int| 0 <= i < name.len() implies name[i] != '/' by {
        assert(name.contains(name[i]));
    }
    if is_visible(p) {
        assert forall|i: int| 0 <= i < dir.len() && #[trigger] dir[i] == '.' implies i > 0 && dir[i
            - 1] != '/' by {
            assert(p[i] == '.');
            assert(p[i - 1] == dir[i - 1]);
        }
        if name.len() > 0 && name[0] == '.' {
            assert(p[n + 1] == '.');
            assert(p[n] == '/');
        }
    }
    if is_visible(dir) && (name.len() == 0 || name[0] != '.') {
        assert forall|i: int| 0 <= i < p.len() && #[trigger] p[i] == '.' implies i > 0 && p[i - 1]
            != '/' by {
            if i < n {
                assert(dir[i] == '.');
                assert(p[i - 1] == dir[i - 1]);
            } else {
                assert(p[i] == name[i - n - 1]);
                assert(p[i - 1] == name[i - n - 2]);
            }
        }
    }
    if is_visible(name) && name.len() > 0 {
        assert(name[0] == '.' ==> false);
    }
}

/// A link is missing where no block of its document has its id, up to date where one of those
/// has its signature, and changed otherwise; without a document it is missing.
pub proof fn law_drift(row: RowView, blocks: Seq<BlockView>)
    ensures
        (forall|i: int| 0 <= i < blocks.len() ==> (#[trigger] blocks[i]).spec_id != row.spec_id)
            ==> status_in(row, blocks) == DriftStatus::DocMissing,
        (exists|i: int|
            0 <= i < blocks.len() && (#[trigger] blocks[i]).spec_id == row.spec_id
                && blocks[i].block_signature == row.signature) ==> status_in(row, blocks)
            == DriftStatus::UpToDate,
        (exists|i: int| 0 <= i < blocks.len() && (#[trigger] blocks[i]).spec_id == row.spec_id) && (
        forall|i: int|
            0 <= i < blocks.len() && (#[trigger] blocks[i]).spec_id == row.spec_id
                ==> blocks[i].block_signature != row.signature) ==> status_in(row, blocks)
            == DriftStatus::DocChanged,
        status_against(row, None) == DriftStatus::DocMissing,
{
}

/// A change below the heading is noticed: where a document has one block of a heading and what
/// is below it no longer has the signature that was indexed, the link is reported as changed.
pub proof fn law_a_changed_block_is_noticed(row: RowView, blocks: Seq<BlockView>, i: int)
    requires
        0 <= i < blocks.len(),
        blocks[i].spec_id == row.spec_id,
        forall|j: int|
            0 <= j < blocks.len() && j != i ==> (#[trigger] blocks[j]).spec_id != row.spec_id,
    ensures
        status_in(row, blocks) == DriftStatus::DocChanged <==> blocks[i].block_signature
            != row.signature,
        status_in(row, blocks) == DriftStatus::UpToDate <==> blocks[i].block_signature
            == row.signature,
{
    assert(has_block(blocks, row.spec_id));
    if blocks[i].block_signature == row.signature {
        assert(has_signed_block(blocks, row.spec_id, row.signature));
    }
}

/// The audit of code has a finding for every row whose symbol is not known, in order, which
/// names the block, the document and the symbol of the row.
pub proof fn law_code_audit_lists_unknown_symbols(rows: Seq<RowView>, known: Seq<Seq<char>>)
    ensures
        unknown_symbols(rows, known) == rows.filter(
            |r: RowView| !known.contains(r.symbol),
        ).map_values(
            |r: RowView|
                DriftView {
                    spec_id: r.spec_id,
                    doc_path: r.doc_path,
                    symbol: r.symbol,
                    status: DriftStatus::CodeMissing,
                },
        ),
    decreases rows.len(),
{
    reveal(Seq::filter);
    let f = |r: RowView| !known.contains(r.symbol);
    let g = |r: RowView|
        DriftView {
            spec_id: r.spec_id,
            doc_path: r.doc_path,
            symbol: r.symbol,
            status: DriftStatus::CodeMissing,
        };
    if rows.len() > 0 {
        law_code_audit_lists_unknown_symbols(rows.drop_last(), known);
        let a = rows.drop_last().filter(f);
        assert(a.push(rows.last()).map_values(g) =~= a.map_values(g).push(g(rows.last())));
    } else {
        assert(unknown_symbols(rows, known) =~= rows.filter(f).map_values(g));
    }
}

/// A finding names the block, the document and the symbol of its row.
pub proof fn law_findings_name_their_row(r: RowView, status: DriftStatus)
    ensures
        drift_of(r, status).spec_id == r.spec_id,
        drift_of(r, status).doc_path == r.doc_path,
        drift_of(r, status).symbol == r.symbol,
        drift_of(r, status).status == status,
{
}

/// A hit that knows its heading stands for the very row that the index would have: its id is
/// that of the block with the heading. One that does not keeps the id of the server.
pub proof fn law_hits_lead_back_to_blocks(
    workspace_key: Seq<char>,
    symbol: Seq<char>,
    h: SearchHit,
    events: Seq<crate::blocks::MdEventView>,
    i: int,
)
    requires
        0 <= i < blocks_of(events, h.doc_path@).len(),
    ensures
        h.heading matches Some(t) ==> (t@ == blocks_of(events, h.doc_path@)[i].heading ==> hit_row(
            workspace_key,
            symbol,
            h,
        ).spec_id == blocks_of(events, h.doc_path@)[i].spec_id),
        h.heading is None ==> hit_row(workspace_key, symbol, h).spec_id == h.spec_id@,
        hit_row(workspace_key, symbol, h).doc_path == h.doc_path@,
        hit_row(workspace_key, symbol, h).symbol == symbol,
        hit_row(workspace_key, symbol, h).workspace_key == workspace_key,
        hit_row(workspace_key, symbol, h).signature.len() == 0,
{
    law_blocks_are_consistent(events, h.doc_path@, i);
}

/// A sync is answered with the plugin's own packet, unless what comes in has another MAJOR or
/// reports an error: then the answer is an error too, which names the one or the other.
pub proof fn law_sync_answers(m: MetaView, own: Seq<char>)
    ensures
        sync_answer(None, own) == own,
        m.format_version matches Some(fv) ==> (is_major_mismatch(fv) ==> sync_answer(Some(m), own)
            == error_packet_text("Major version mismatch: plugin v1 cannot read v"@ + fv)),
        (m.format_version matches Some(fv) ==> !is_major_mismatch(fv)) && m.error is Some
            ==> sync_answer(Some(m), own) == error_packet_text(m.error->0),
        (m.format_version matches Some(fv) ==> !is_major_mismatch(fv)) && m.error is None
            ==> sync_answer(Some(m), own) == own,
{
}

/// A backend keeps the URL of its server without slashes at its end.
pub proof fn law_base_urls(url: Seq<char>)
    requires
        url.len() > 0,
        url.last() != '/',
    ensures
        trim_end_char(url, '/') == url,
        trim_end_char(url + seq!['/'], '/') == url,
        trim_end_char(url + seq!['/', '/'], '/') == url,
{
    let a = url + seq!['/'];
    let b = url + seq!['/', '/'];
    assert(a.drop_last() =~= url);
    assert(b.drop_last() =~= a);
    assert(a.last() == '/' && b.last() == '/');
    assert(trim_end_char(a, '/') == trim_end_char(url, '/'));
    assert(trim_end_char(b, '/') == trim_end_char(a, '/'));
}

/// The documents that are found below a visible directory are those whose own name is not hidden
/// and is that of Markdown.
pub proof fn law_what_documents_are_found(dir: Seq<char>, name: Seq<char>)
    requires
        name.len() > 0,
        !name.contains('/'),
        is_visible(dir),
    ensures
        is_doc_path(dir + seq!['/'] + name) <==> name[0] != '.' && is_markdown_name(
            dir + seq!['/'] + name,
        ),
        is_doc_path(name) <==> name[0] != '.' && is_markdown_name(name),
{
    law_hidden_paths(dir, name);
}

/// The state that the plugin reports has the number of links and the workspace of the server.
pub proof fn law_reported_state(link_count: nat, od_workspace_id: Seq<char>)
    ensures
        opendoc_state(link_count, od_workspace_id) == JsonView::Object(
            seq![
                (
                    "opendoc"@,
                    JsonView::Object(
                        seq![
                            ("link_count"@, JsonView::UInt(link_count as u64)),
                            ("od_workspace_id"@, JsonView::Str(od_workspace_id)),
                        ],
                    ),
                ),
            ],
        ),
{
}

/// A walk takes just the files that are documents, and enters just the directories that are not
/// hidden.
pub proof fn law_walks_find_the_documents(name: Seq<char>)
    requires
        name.len() > 0,
        !name.contains('/'),
    ensures
        action_for(name, false) == EntryAction::Take <==> is_doc_path(name),
        action_for(name, true) == EntryAction::Descend <==> is_visible(name),
        action_for(name, false) != EntryAction::Descend,
        action_for(name, true) != EntryAction::Take,
{
    law_hidden_paths(name, name);
    reveal_strlit(".");
    assert("."@ =~= seq!['.']);
    assert(name.take(1) =~= seq![name[0]]);
    if name.take(1) == "."@ {
        assert(name.take(1)[0] == '.');
    }
}

/// Links come before hits: where a symbol has link rows, they are its documents and no search
/// counts; else every hit counts, in order; without a search there is none.
pub proof fn law_links_come_before_hits(
    workspace_key: Seq<char>,
    symbol: Seq<char>,
    hard: Seq<RowView>,
    hits: Seq<SearchHit>,
    i: int,
)
    ensures
        hard.len() > 0 ==> context_rows(workspace_key, symbol, hard, Some(hits)) == hard
            && context_rows(workspace_key, symbol, hard, None) == hard,
        hard.len() == 0 ==> context_rows(workspace_key, symbol, hard, None).len() == 0,
        hard.len() == 0 ==> context_rows(workspace_key, symbol, hard, Some(hits)).len()
            == hits.len(),
        hard.len() == 0 && 0 <= i < hits.len() ==> {
            let row = context_rows(workspace_key, symbol, hard, Some(hits))[i];
            &&& row.symbol == symbol
            &&& row.workspace_key == workspace_key
            &&& row.doc_path == hits[i].doc_path@
            &&& hits[i].heading is None ==> row.spec_id == hits[i].spec_id@
        },
{
}

}
