use crate::bytes::{copy_from, same_bytes};
use vstd::prelude::*;
use vstd::string::StringSliceAdditionalSpecFns;

verus! {

/// A handle on one output asset: a chunk, or another file that a chunk needs.
/// Two handles with the same number denote the same asset.
#[derive(Clone, Copy, Debug, PartialEq, Eq, Structural)]
pub struct OutputAsset {
    pub id: u64,
}

/// The identity of an asset: where it comes from, and what was derived from it.
#[derive(Debug)]
pub struct AssetIdent {
    pub path: String,
    pub modifiers: Vec<String>,
}

pub struct AssetIdentView {
    pub path: Seq<char>,
    pub modifiers: Seq<Seq<char>>,
}

impl AssetIdentView {
    /// The identity with one more modifier behind those it has.
    pub open spec fn with_modifier(self, modifier: Seq<char>) -> AssetIdentView {
        AssetIdentView { path: self.path, modifiers: self.modifiers.push(modifier) }
    }
}

impl View for AssetIdent {
    type V = AssetIdentView;

    open spec fn view(&self) -> AssetIdentView {
        AssetIdentView {
            path: self.path@,
            modifiers: self.modifiers@.map_values(|m: String| m@),
        }
    }
}

impl AssetIdent {
    pub fn with_modifier(&self, modifier: String) -> (derived: AssetIdent)
        ensures
            derived@ == self@.with_modifier(modifier@),
    {
        let mut modifiers: Vec<String> = Vec::new();
        let mut i: usize = 0;
        while i < self.modifiers.len()
            invariant
                i <= self.modifiers.len(),
                modifiers@.len() == i,
                forall|k: int| 0 <= k < i ==> modifiers@[k]@ == self.modifiers@[k]@,
            decreases self.modifiers.len() - i,
        {
            modifiers.push(self.modifiers[i].clone());
            i += 1;
        }
        modifiers.push(modifier);
        let derived = AssetIdent { path: self.path.clone(), modifiers };
        assert(derived@.modifiers =~= self@.with_modifier(modifier@).modifiers);
        derived
    }
}

/// Where and how chunks are placed. Paths of chunks are given to the runtime
/// relative to `output_root`.
#[derive(Debug)]
pub struct ChunkingContext {
    pub output_root: Vec<u8>,
}

/// Which modules are known to be loaded already at some point of the graph.
#[derive(Clone, Copy, Debug, PartialEq, Eq, Structural)]
pub enum AvailabilityInfo {
    Untracked,
    Root { current_availability_root: u64 },
    Inner { available_modules: u64, current_availability_root: u64 },
}

/// The chunk that computes, once it is asked for, every chunk that the target
/// of one dynamic import needs.
#[derive(Debug)]
pub struct ManifestChunkAsset {
    pub ident: AssetIdent,
    pub chunking_context: ChunkingContext,
}

/// One chunk as the manifest's traversal found it: its handle, its path, and
/// the other output assets that it refers to.
#[derive(Debug)]
pub struct Chunk {
    pub asset: OutputAsset,
    pub path: Vec<u8>,
    pub references: Vec<OutputAsset>,
}

pub struct ChunkView {
    pub asset: OutputAsset,
    pub path: Seq<u8>,
    pub references: Seq<OutputAsset>,
}

impl View for Chunk {
    type V = ChunkView;

    open spec fn view(&self) -> ChunkView {
        ChunkView { asset: self.asset, path: self.path@, references: self.references@ }
    }
}

/// What the runtime needs to load one chunk: its path below the output root,
/// and the output assets that it refers to.
#[derive(Debug)]
pub struct ChunkData {
    pub path: Vec<u8>,
    pub references: Vec<OutputAsset>,
}

pub struct ChunkDataView {
    pub path: Seq<u8>,
    pub references: Seq<OutputAsset>,
}

impl View for ChunkData {
    type V = ChunkDataView;

    open spec fn view(&self) -> ChunkDataView {
        ChunkDataView { path: self.path@, references: self.references@ }
    }
}

/// An edge from a chunk item to an output asset, with the words that graph
/// tools show for it.
#[derive(Debug)]
pub struct SingleOutputAssetReference {
    pub asset: OutputAsset,
    pub description: String,
}

pub struct ReferenceView {
    pub asset: OutputAsset,
    pub description: Seq<char>,
}

impl View for SingleOutputAssetReference {
    type V = ReferenceView;

    open spec fn view(&self) -> ReferenceView {
        ReferenceView { asset: self.asset, description: self.description@ }
    }
}

/// The chunk that carries a chunk item's code.
#[derive(Debug)]
pub struct EcmascriptChunk {
    pub output_root: Vec<u8>,
    pub main_entry: AssetIdent,
    pub availability_info: AvailabilityInfo,
}

/// The code of one chunk item.
#[derive(Debug)]
pub struct EcmascriptChunkItemContent {
    pub inner_code: Vec<u8>,
}

/// Why a loader's code could not be written.
#[derive(Clone, Copy, Debug, PartialEq, Eq, Structural)]
pub enum ContentError {
    /// The target of the dynamic import has no place in a chunk of scripts.
    NotPlaceable,
}

impl ContentError {
    pub fn message(&self) -> (text: String)
        ensures
            text@ == "asset is not placeable in ecmascript chunk"@,
    {
        "asset is not placeable in ecmascript chunk".to_owned()
    }
}

pub open spec fn chunk_views(chunks: Seq<Chunk>) -> Seq<ChunkView> {
    chunks.map_values(|c: Chunk| c@)
}

pub open spec fn chunk_data_views(data: Seq<ChunkData>) -> Seq<ChunkDataView> {
    data.map_values(|d: ChunkData| d@)
}

pub open spec fn reference_views(references: Seq<SingleOutputAssetReference>) -> Seq<
    ReferenceView,
> {
    references.map_values(|r: SingleOutputAssetReference| r@)
}

/// The path of a file as seen from `root`: the whole path where the root is
/// the empty path, what follows the root and one `/` where the path lies
/// below the root, and nothing otherwise.
pub open spec fn relative_path(root: Seq<u8>, path: Seq<u8>) -> Option<Seq<u8>> {
    if root.len() == 0 {
        Some(path)
    } else if path.len() > root.len() && path.subrange(0, root.len() as int) == root
        && path[root.len() as int] == 47u8 {
        Some(path.subrange(root.len() as int + 1, path.len() as int))
    } else {
        None
    }
}

/// Whether one of the descriptors has the path.
pub open spec fn has_path(data: Seq<ChunkDataView>, path: Seq<u8>) -> bool {
    exists|i: int| 0 <= i < data.len() && (#[trigger] data[i]).path == path
}

/// The descriptors of the chunks that lie below `root`, in the chunks' order,
/// one for each path: of several chunks with one path the first gives the
/// descriptor.
pub open spec fn translate(root: Seq<u8>, chunks: Seq<ChunkView>) -> Seq<ChunkDataView>
    decreases chunks.len(),
{
    if chunks.len() == 0 {
        Seq::empty()
    } else {
        let before = translate(root, chunks.drop_last());
        match relative_path(root, chunks.last().path) {
            Some(path) => if has_path(before, path) {
                before
            } else {
                before.push(ChunkDataView { path, references: chunks.last().references })
            },
            None => before,
        }
    }
}

/// The chunks that have no chunk data, because they do not lie below `root`,
/// in the chunks' order.
pub open spec fn unresolved_chunks(root: Seq<u8>, chunks: Seq<ChunkView>) -> Seq<OutputAsset>
    decreases chunks.len(),
{
    if chunks.len() == 0 {
        Seq::empty()
    } else {
        let before = unresolved_chunks(root, chunks.drop_last());
        if relative_path(root, chunks.last().path) is None {
            before.push(chunks.last().asset)
        } else {
            before
        }
    }
}

/// Whether one of the references points at the asset.
pub open spec fn references_hold(references: Seq<ReferenceView>, asset: OutputAsset) -> bool {
    exists|i: int| 0 <= i < references.len() && #[trigger] references[i].asset == asset
}

/// The references without those to an asset that an earlier one points at.
pub open spec fn distinct_references(references: Seq<ReferenceView>) -> Seq<ReferenceView>
    decreases references.len(),
{
    if references.len() == 0 {
        Seq::empty()
    } else {
        let before = distinct_references(references.drop_last());
        if references_hold(before, references.last().asset) {
            before
        } else {
            before.push(references.last())
        }
    }
}

/// What a loader refers to: each chunk of the manifest, then each asset that
/// a descriptor of those chunks names, and none of them twice.
pub open spec fn loader_references(root: Seq<u8>, chunks: Seq<ChunkView>) -> Seq<ReferenceView> {
    distinct_references(chunk_references(chunks) + data_references(translate(root, chunks)))
}

/// One reference to each chunk, in the chunks' order.
pub open spec fn chunk_references(chunks: Seq<ChunkView>) -> Seq<ReferenceView> {
    chunks.map_values(
        |c: ChunkView| ReferenceView { asset: c.asset, description: "manifest loader chunk"@ },
    )
}

/// One reference to each asset that one descriptor refers to.
pub open spec fn descriptor_references(assets: Seq<OutputAsset>) -> Seq<ReferenceView> {
    assets.map_values(
        |a: OutputAsset| ReferenceView { asset: a, description: "chunk data reference"@ },
    )
}

/// One reference to each asset that each descriptor refers to, descriptor by
/// descriptor.
pub open spec fn data_references(data: Seq<ChunkDataView>) -> Seq<ReferenceView>
    decreases data.len(),
{
    if data.len() == 0 {
        Seq::empty()
    } else {
        data_references(data.drop_last()) + descriptor_references(data.last().references)
    }
}

/// How many assets the descriptors refer to, each occurrence counted.
pub open spec fn count_references(data: Seq<ChunkDataView>) -> nat
    decreases data.len(),
{
    if data.len() == 0 {
        0
    } else {
        count_references(data.drop_last()) + data.last().references.len()
    }
}

fn copy_assets(source: &Vec<OutputAsset>) -> (copy: Vec<OutputAsset>)
    ensures
        copy@ == source@,
{
    let mut copy: Vec<OutputAsset> = Vec::new();
    let mut i: usize = 0;
    while i < source.len()
        invariant
            i <= source@.len(),
            copy@ == source@.subrange(0, i as int),
        decreases source@.len() - i,
    {
        copy.push(source[i]);
        assert(copy@ =~= source@.subrange(0, i + 1));
        i += 1;
    }
    assert(source@.subrange(0, source@.len() as int) =~= source@);
    copy
}

fn append(code: &mut Vec<u8>, piece: &[u8])
    ensures
        final(code)@ == old(code)@ + piece@,
{
    let ghost before = code@;
    let mut i: usize = 0;
    while i < piece.len()
        invariant
            i <= piece@.len(),
            code@ == before + piece@.subrange(0, i as int),
        decreases piece@.len() - i,
    {
        code.push(piece[i]);
        assert(code@ =~= before + piece@.subrange(0, i + 1));
        i += 1;
    }
    assert(piece@.subrange(0, piece@.len() as int) =~= piece@);
}

fn holds_path(data: &Vec<ChunkData>, path: &Vec<u8>) -> (found: bool)
    ensures
        found == has_path(chunk_data_views(data@), path@),
{
    let mut i: usize = 0;
    while i < data.len()
        invariant
            i <= data@.len(),
            forall|k: int| 0 <= k < i ==> (#[trigger] chunk_data_views(data@)[k]).path != path@,
        decreases data@.len() - i,
    {
        if same_bytes(&data[i].path, path) {
            assert(chunk_data_views(data@)[i as int].path == path@);
            return true;
        }
        i += 1;
    }
    false
}

fn holds_asset(references: &Vec<SingleOutputAssetReference>, asset: OutputAsset) -> (found: bool)
    ensures
        found == references_hold(reference_views(references@), asset),
{
    let mut i: usize = 0;
    while i < references.len()
        invariant
            i <= references@.len(),
            forall|k: int| 0 <= k < i ==> (#[trigger] reference_views(references@)[k]).asset != asset,
        decreases references@.len() - i,
    {
        if references[i].asset.id == asset.id {
            assert(reference_views(references@)[i as int].asset == asset);
            return true;
        }
        i += 1;
    }
    false
}

fn distinct(all: &Vec<SingleOutputAssetReference>) -> (kept: Vec<SingleOutputAssetReference>)
    ensures
        reference_views(kept@) == distinct_references(reference_views(all@)),
{
    let ghost views = reference_views(all@);
    let mut kept: Vec<SingleOutputAssetReference> = Vec::new();
    let mut i: usize = 0;
    assert(reference_views(kept@) =~= distinct_references(views.subrange(0, 0)));
    while i < all.len()
        invariant
            i <= all@.len(),
            views == reference_views(all@),
            reference_views(kept@) == distinct_references(views.subrange(0, i as int)),
        decreases all@.len() - i,
    {
        proof {
            assert(views.subrange(0, i + 1).drop_last() =~= views.subrange(0, i as int));
            assert(views.subrange(0, i + 1).last() == all@[i as int]@);
        }
        let ghost before = reference_views(kept@);
        if !holds_asset(&kept, all[i].asset) {
            kept.push(
                SingleOutputAssetReference {
                    asset: all[i].asset,
                    description: all[i].description.clone(),
                },
            );
            assert(reference_views(kept@) =~= before.push(all@[i as int]@));
        }
        i += 1;
    }
    assert(views.subrange(0, views.len() as int) =~= views);
    kept
}

/// Computes `relative_path`.
pub fn path_below(root: &Vec<u8>, path: &Vec<u8>) -> (relative: Option<Vec<u8>>)
    ensures
        relative is Some <==> relative_path(root@, path@) is Some,
        relative is Some ==> relative->Some_0@ == relative_path(root@, path@)->Some_0,
{
    let n = root.len();
    if n == 0 {
        let whole = copy_from(path, 0);
        assert(path@.subrange(0, path@.len() as int) =~= path@);
        return Some(whole);
    }
    if path.len() <= n {
        return None;
    }
    let mut i: usize = 0;
    while i < n
        invariant
            i <= n,
            n == root@.len(),
            n < path@.len(),
            forall|k: int| 0 <= k < i ==> path@[k] == root@[k],
        decreases n - i,
    {
        if path[i] != root[i] {
            assert(path@.subrange(0, n as int)[i as int] == path@[i as int]);
            return None;
        }
        i += 1;
    }
    assert(path@.subrange(0, n as int) =~= root@);
    if path[n] != 47u8 {
        return None;
    }
    Some(copy_from(path, n + 1))
}

/// The modifier that tells a loader item's identity from its manifest's.
pub fn modifier() -> (tag: String)
    ensures
        tag@ == "loader"@,
{
    "loader".to_owned()
}

pub fn manifest_loader_chunk_reference_description() -> (text: String)
    ensures
        text@ == "manifest loader chunk"@,
{
    "manifest loader chunk".to_owned()
}

pub fn chunk_data_reference_description() -> (text: String)
    ensures
        text@ == "chunk data reference"@,
{
    "chunk data reference".to_owned()
}

pub open spec fn code_head() -> Seq<u8> {
    "__turbopack_export_value__((__turbopack_import__) => {\n    return Promise.all(".spec_bytes()
}

pub open spec fn code_after_chunks() -> Seq<u8> {
    ".map((chunk) => __turbopack_load__(chunk))).then(() => {\n        return __turbopack_require__(".spec_bytes()
}

pub open spec fn code_after_item_id() -> Seq<u8> {
    ");\n    }).then((chunks) => {\n        return Promise.all(chunks.map((chunk) => __turbopack_load__(chunk)));\n    }).then(() => {\n        return __turbopack_import__(".spec_bytes()
}

pub open spec fn code_tail() -> Seq<u8> {
    ");\n    });\n});\n".spec_bytes()
}

/// The loader's code around three literals: it loads the chunks of
/// `chunks_server_data`, requires the item `item_id`, loads the chunks that
/// this gave, and imports the module `dynamic_id`.
pub open spec fn loader_code(
    chunks_server_data: Seq<u8>,
    item_id: Seq<u8>,
    dynamic_id: Seq<u8>,
) -> Seq<u8> {
    code_head() + chunks_server_data + code_after_chunks() + item_id + code_after_item_id()
        + dynamic_id + code_tail()
}

/// Writes `loader_code`.
pub fn write_loader_code(chunks_server_data: &[u8], item_id: &[u8], dynamic_id: &[u8]) -> (code:
    Vec<u8>)
    ensures
        code@ == loader_code(chunks_server_data@, item_id@, dynamic_id@),
{
    let mut code: Vec<u8> = Vec::new();
    assert(code@ + code_head() =~= code_head());
    append(
        &mut code,
        "__turbopack_export_value__((__turbopack_import__) => {\n    return Promise.all(".as_bytes(),
    );
    append(&mut code, chunks_server_data);
    append(
        &mut code,
        ".map((chunk) => __turbopack_load__(chunk))).then(() => {\n        return __turbopack_require__(".as_bytes(),
    );
    append(&mut code, item_id);
    append(
        &mut code,
        ");\n    }).then((chunks) => {\n        return Promise.all(chunks.map((chunk) => __turbopack_load__(chunk)));\n    }).then(() => {\n        return __turbopack_import__(".as_bytes(),
    );
    append(&mut code, dynamic_id);
    append(&mut code, ");\n    });\n});\n".as_bytes());
    code
}

/// The text that std's `String::from_utf8_lossy` reads from bytes: the text
/// that they spell in UTF-8, with U+FFFD in the place of what is no UTF-8.
pub uninterp spec fn lossy_text(bytes: Seq<u8>) -> Seq<char>;

/// Calls `String::from_utf8_lossy` and hands the text out as a `String`: the
/// text that `lossy_text` names.
#[verifier::external_body]
fn text_of(bytes: &Vec<u8>) -> (text: String)
    ensures
        text@ == lossy_text(bytes@),
{
    String::from_utf8_lossy(bytes).into_owned()
}

/// The string literal that `serde_json::to_vec` writes for a text.
pub uninterp spec fn json_string(text: Seq<char>) -> Seq<u8>;

/// Calls `serde_json::to_vec` on a text: the literal that `json_string`
/// names. Writing a text into memory does not fail.
#[verifier::external_body]
fn write_json_string(text: &String) -> (literal: Vec<u8>)
    ensures
        literal@ == json_string(text@),
{
    match serde_json::to_vec(text) {
        Ok(literal) => literal,
        Err(_) => Vec::new(),
    }
}

/// The string literals of the texts, with a comma between each two.
pub open spec fn joined_strings(texts: Seq<Seq<char>>) -> Seq<u8>
    decreases texts.len(),
{
    if texts.len() == 0 {
        Seq::empty()
    } else if texts.len() == 1 {
        json_string(texts[0])
    } else {
        joined_strings(texts.drop_last()) + seq![44u8] + json_string(texts.last())
    }
}

/// The array literal of a list of texts: `[`, the string literals of the
/// texts with a comma between each two, and `]`.
pub open spec fn json_strings(texts: Seq<Seq<char>>) -> Seq<u8> {
    seq![91u8] + joined_strings(texts) + seq![93u8]
}

/// Calls `serde_json::to_vec` on a list of texts. What it writes is an array
/// without white space: the literal that `json_strings` states. Writing texts
/// into memory does not fail.
#[verifier::external_body]
fn write_json_strings(texts: &Vec<String>) -> (literal: Vec<u8>)
    ensures
        literal@ == json_strings(texts@.map_values(|t: String| t@)),
{
    match serde_json::to_vec(texts) {
        Ok(literal) => literal,
        Err(_) => Vec::new(),
    }
}

/// The id of a module as the runtime knows it: a number, or a text.
#[derive(Debug)]
pub enum ModuleId {
    Number(u32),
    String(String),
}

pub enum ModuleIdView {
    Number(u32),
    String(Seq<char>),
}

impl View for ModuleId {
    type V = ModuleIdView;

    open spec fn view(&self) -> ModuleIdView {
        match self {
            ModuleId::Number(number) => ModuleIdView::Number(*number),
            ModuleId::String(text) => ModuleIdView::String(text@),
        }
    }
}

/// A number in decimal digits, without a sign and without leading zeros.
pub open spec fn decimal(number: nat) -> Seq<u8>
    decreases number,
{
    if number < 10 {
        seq![(48 + number) as u8]
    } else {
        decimal(number / 10).push((48 + number % 10) as u8)
    }
}

/// The literal of a module id: a number in decimal digits, a text as a
/// string literal.
pub open spec fn module_id_literal(id: ModuleIdView) -> Seq<u8> {
    match id {
        ModuleIdView::Number(number) => decimal(number as nat),
        ModuleIdView::String(text) => json_string(text),
    }
}

/// The paths of the descriptors, read as texts.
pub open spec fn path_texts(data: Seq<ChunkDataView>) -> Seq<Seq<char>> {
    Seq::new(data.len(), |i: int| lossy_text(data[i].path))
}

/// The literal of a list of descriptors: an array of their paths.
pub open spec fn chunks_literal(data: Seq<ChunkDataView>) -> Seq<u8> {
    json_strings(path_texts(data))
}

fn write_decimal(out: &mut Vec<u8>, number: u32)
    ensures
        final(out)@ == old(out)@ + decimal(number as nat),
    decreases number,
{
    if number >= 10 {
        write_decimal(out, number / 10);
    }
    let digit: u32 = number % 10;
    out.push(48u8 + digit as u8);
    assert(out@ =~= old(out)@ + decimal(number as nat));
}

/// Writes `module_id_literal`.
pub fn write_module_id(id: &ModuleId) -> (literal: Vec<u8>)
    ensures
        literal@ == module_id_literal(id@),
{
    match id {
        ModuleId::Number(number) => {
            let mut literal: Vec<u8> = Vec::new();
            write_decimal(&mut literal, *number);
            assert(literal@ =~= decimal(*number as nat));
            literal
        },
        ModuleId::String(text) => write_json_string(text),
    }
}

/// Writes `chunks_literal`.
pub fn write_chunks_literal(data: &Vec<ChunkData>) -> (literal: Vec<u8>)
    ensures
        literal@ == chunks_literal(chunk_data_views(data@)),
{
    let mut texts: Vec<String> = Vec::new();
    let mut i: usize = 0;
    while i < data.len()
        invariant
            i <= data@.len(),
            texts@.len() == i,
            forall|k: int| 0 <= k < i ==> (#[trigger] texts@[k])@ == lossy_text(data@[k].path@),
        decreases data@.len() - i,
    {
        texts.push(text_of(&data[i].path));
        i += 1;
    }
    assert(texts@.map_values(|t: String| t@) =~= path_texts(chunk_data_views(data@)));
    write_json_strings(&texts)
}

/// The manifest loader item is shipped in the chunk that holds the dynamic
/// `import()`. It loads the manifest chunk, which loads every chunk that the
/// import needs; then the imported module can be had.
///
/// The loader is quick to make and the manifest chunk slow: the traversal is
/// not made until the import is reached.
#[derive(Debug)]
pub struct ManifestLoaderItem {
    pub manifest: ManifestChunkAsset,
    pub chunking_context: ChunkingContext,
}

impl ManifestLoaderItem {
    /// The identity of the loader of a manifest with the identity `manifest`.
    pub open spec fn ident_of(manifest: AssetIdentView) -> AssetIdentView {
        manifest.with_modifier("loader"@)
    }

    pub fn new(manifest: ManifestChunkAsset, chunking_context: ChunkingContext) -> (item: Self)
        ensures
            item.manifest == manifest,
            item.chunking_context == chunking_context,
    {
        ManifestLoaderItem { manifest, chunking_context }
    }

    /// The descriptors of the manifest's chunks, as seen from the output root
    /// of the loader's chunking context, one for each path. `manifest_chunks`
    /// is what the manifest's traversal gave. A chunk that does not lie below
    /// the output root has no descriptor; `missing_chunk_data` names it.
    pub fn chunks_data(&self, manifest_chunks: &Vec<Chunk>) -> (data: Vec<ChunkData>)
        ensures
            chunk_data_views(data@) == translate(
                self.chunking_context.output_root@,
                chunk_views(manifest_chunks@),
            ),
    {
        let ghost root = self.chunking_context.output_root@;
        let ghost views = chunk_views(manifest_chunks@);
        let mut data: Vec<ChunkData> = Vec::new();
        let mut i: usize = 0;
        assert(chunk_data_views(data@) =~= translate(root, views.subrange(0, 0)));
        while i < manifest_chunks.len()
            invariant
                i <= manifest_chunks@.len(),
                root == self.chunking_context.output_root@,
                views == chunk_views(manifest_chunks@),
                chunk_data_views(data@) == translate(root, views.subrange(0, i as int)),
            decreases manifest_chunks@.len() - i,
        {
            let chunk = &manifest_chunks[i];
            let ghost before = chunk_data_views(data@);
            proof {
                assert(views.subrange(0, i + 1).drop_last() =~= views.subrange(0, i as int));
                assert(views.subrange(0, i + 1).last() == chunk@);
            }
            match path_below(&self.chunking_context.output_root, &chunk.path) {
                Some(path) => {
                    if !holds_path(&data, &path) {
                        let references = copy_assets(&chunk.references);
                        data.push(ChunkData { path, references });
                        assert(chunk_data_views(data@) =~= before.push(
                            ChunkDataView { path: path@, references: chunk@.references },
                        ));
                    }
                },
                None => {},
            }
            i += 1;
        }
        assert(views.subrange(0, views.len() as int) =~= views);
        data
    }

    /// The chunks of the manifest that have no chunk data, in their order:
    /// what a build reports as a defect of the graph. It is empty exactly if
    /// every chunk lies below the output root.
    pub fn missing_chunk_data(&self, manifest_chunks: &Vec<Chunk>) -> (missing: Vec<OutputAsset>)
        ensures
            missing@ == unresolved_chunks(
                self.chunking_context.output_root@,
                chunk_views(manifest_chunks@),
            ),
    {
        let ghost root = self.chunking_context.output_root@;
        let ghost views = chunk_views(manifest_chunks@);
        let mut missing: Vec<OutputAsset> = Vec::new();
        let mut i: usize = 0;
        assert(missing@ =~= unresolved_chunks(root, views.subrange(0, 0)));
        while i < manifest_chunks.len()
            invariant
                i <= manifest_chunks@.len(),
                root == self.chunking_context.output_root@,
                views == chunk_views(manifest_chunks@),
                missing@ == unresolved_chunks(root, views.subrange(0, i as int)),
            decreases manifest_chunks@.len() - i,
        {
            let chunk = &manifest_chunks[i];
            proof {
                assert(views.subrange(0, i + 1).drop_last() =~= views.subrange(0, i as int));
                assert(views.subrange(0, i + 1).last() == chunk@);
            }
            if path_below(&self.chunking_context.output_root, &chunk.path).is_none() {
                missing.push(chunk.asset);
            }
            i += 1;
        }
        assert(views.subrange(0, views.len() as int) =~= views);
        missing
    }

    pub fn asset_ident(&self) -> (ident: AssetIdent)
        ensures
            ident@ == Self::ident_of(self.manifest.ident@),
    {
        self.manifest.ident.with_modifier(modifier())
    }

    /// Every chunk of the manifest, then every asset that the descriptors of
    /// those chunks refer to, and none of them twice: what has to be emitted
    /// for the import to load. An asset that is met again keeps the words of
    /// its first reference.
    pub fn references(&self, manifest_chunks: &Vec<Chunk>) -> (references: Vec<
        SingleOutputAssetReference,
    >)
        ensures
            reference_views(references@) == loader_references(
                self.chunking_context.output_root@,
                chunk_views(manifest_chunks@),
            ),
    {
        let data = self.chunks_data(manifest_chunks);
        let all = self.all_references(manifest_chunks, &data);
        distinct(&all)
    }

    fn all_references(&self, manifest_chunks: &Vec<Chunk>, data: &Vec<ChunkData>) -> (references:
        Vec<SingleOutputAssetReference>)
        requires
            chunk_data_views(data@) == translate(
                self.chunking_context.output_root@,
                chunk_views(manifest_chunks@),
            ),
        ensures
            reference_views(references@) == chunk_references(chunk_views(manifest_chunks@))
                + data_references(
                translate(self.chunking_context.output_root@, chunk_views(manifest_chunks@)),
            ),
    {
        let ghost views = chunk_views(manifest_chunks@);
        let mut references: Vec<SingleOutputAssetReference> = Vec::new();
        let mut i: usize = 0;
        assert(reference_views(references@) =~= chunk_references(views.subrange(0, 0)));
        while i < manifest_chunks.len()
            invariant
                i <= manifest_chunks@.len(),
                views == chunk_views(manifest_chunks@),
                reference_views(references@) == chunk_references(views.subrange(0, i as int)),
            decreases manifest_chunks@.len() - i,
        {
            let ghost before = reference_views(references@);
            references.push(
                SingleOutputAssetReference {
                    asset: manifest_chunks[i].asset,
                    description: manifest_loader_chunk_reference_description(),
                },
            );
            proof {
                let added = ReferenceView {
                    asset: manifest_chunks@[i as int].asset,
                    description: "manifest loader chunk"@,
                };
                assert(reference_views(references@) =~= before.push(added));
                assert(views.subrange(0, i + 1)[i as int] == manifest_chunks@[i as int]@);
                assert(before.push(added) =~= chunk_references(views.subrange(0, i + 1)));
            }
            i += 1;
        }
        assert(views.subrange(0, views.len() as int) =~= views);
        let ghost chunk_part = reference_views(references@);
        let ghost descriptors = chunk_data_views(data@);
        let mut j: usize = 0;
        assert(reference_views(references@) =~= chunk_part + data_references(
            descriptors.subrange(0, 0),
        ));
        while j < data.len()
            invariant
                j <= data@.len(),
                descriptors == chunk_data_views(data@),
                reference_views(references@) == chunk_part + data_references(
                    descriptors.subrange(0, j as int),
                ),
            decreases data@.len() - j,
        {
            let assets = &data[j].references;
            let ghost done = reference_views(references@);
            let mut k: usize = 0;
            assert(reference_views(references@) =~= done + descriptor_references(
                assets@.subrange(0, 0),
            ));
            while k < assets.len()
                invariant
                    k <= assets@.len(),
                    reference_views(references@) == done + descriptor_references(
                        assets@.subrange(0, k as int),
                    ),
                decreases assets@.len() - k,
            {
                let ghost inner = reference_views(references@);
                references.push(
                    SingleOutputAssetReference {
                        asset: assets[k],
                        description: chunk_data_reference_description(),
                    },
                );
                proof {
                    let added = ReferenceView {
                        asset: assets@[k as int],
                        description: "chunk data reference"@,
                    };
                    assert(reference_views(references@) =~= inner.push(added));
                    assert(inner.push(added) =~= done + descriptor_references(
                        assets@.subrange(0, k + 1),
                    ));
                }
                k += 1;
            }
            proof {
                assert(assets@.subrange(0, assets@.len() as int) =~= assets@);
                assert(descriptors.subrange(0, j + 1).drop_last() =~= descriptors.subrange(
                    0,
                    j as int,
                ));
                assert(descriptors.subrange(0, j + 1).last().references == assets@);
                assert(reference_views(references@) =~= chunk_part + data_references(
                    descriptors.subrange(0, j + 1),
                ));
            }
            j += 1;
        }
        assert(descriptors.subrange(0, descriptors.len() as int) =~= descriptors);
        references
    }

    pub fn chunking_context(&self) -> (context: &ChunkingContext)
        ensures
            *context == self.chunking_context,
    {
        &self.chunking_context
    }

    /// The chunking context of the manifest, under which the ids of chunk
    /// items are made.
    pub fn ecmascript_chunking_context(&self) -> (context: &ChunkingContext)
        ensures
            *context == self.manifest.chunking_context,
    {
        &self.manifest.chunking_context
    }

    /// The chunk that will carry the loader's code. Nothing of the manifest's
    /// chunks is asked for here.
    pub fn as_chunk(&self, availability_info: AvailabilityInfo) -> (chunk: EcmascriptChunk)
        ensures
            chunk.output_root@ == self.chunking_context.output_root@,
            chunk.main_entry@ == self.manifest.ident@,
            chunk.availability_info == availability_info,
    {
        let main_entry = AssetIdent {
            path: self.manifest.ident.path.clone(),
            modifiers: self.manifest.ident.modifiers.clone(),
        };
        assert(main_entry@.modifiers =~= self.manifest.ident@.modifiers);
        EcmascriptChunk {
            output_root: copy_from(&self.chunking_context.output_root, 0),
            main_entry,
            availability_info,
        }
    }

    /// The loader's code: it loads the manifest's chunks that have chunk
    /// data, requires the manifest chunk item `item_id`, loads the chunks
    /// that this gave, and imports the module `dynamic_id`. An imported
    /// module that has no place in a chunk of scripts has no id, and no code
    /// is written for it.
    pub fn content(
        &self,
        manifest_chunks: &Vec<Chunk>,
        item_id: &ModuleId,
        dynamic_id: Option<&ModuleId>,
    ) -> (content: Result<EcmascriptChunkItemContent, ContentError>)
        ensures
            dynamic_id is None <==> content == Err::<EcmascriptChunkItemContent, ContentError>(
                ContentError::NotPlaceable,
            ),
            dynamic_id is Some <==> content is Ok,
            dynamic_id is Some ==> content->Ok_0.inner_code@ == loader_code(
                chunks_literal(
                    translate(self.chunking_context.output_root@, chunk_views(manifest_chunks@)),
                ),
                module_id_literal(item_id@),
                module_id_literal(dynamic_id->Some_0@),
            ),
    {
        let chunks_server_data = write_chunks_literal(&self.chunks_data(manifest_chunks));
        let item_id = write_module_id(item_id);
        match dynamic_id {
            None => Err(ContentError::NotPlaceable),
            Some(dynamic_id) => {
                let dynamic_id = write_module_id(dynamic_id);
                Ok(
                    EcmascriptChunkItemContent {
                        inner_code: write_loader_code(
                            chunks_server_data.as_slice(),
                            item_id.as_slice(),
                            dynamic_id.as_slice(),
                        ),
                    },
                )
            },
        }
    }
}

} // verus!

verus! {

/// Whether one of the chunks is the asset.
pub open spec fn has_chunk(chunks: Seq<ChunkView>, asset: OutputAsset) -> bool {
    exists|i: int| 0 <= i < chunks.len() && #[trigger] chunks[i].asset == asset
}

/// Whether one of the descriptors refers to the asset.
pub open spec fn data_refers_to(data: Seq<ChunkDataView>, asset: OutputAsset) -> bool {
    exists|i: int, k: int|
        0 <= i < data.len() && 0 <= k < data[i].references.len()
            && #[trigger] data[i].references[k] == asset
}

/// The references made for a list of descriptors are as many as the assets
/// that the descriptors refer to, and point at exactly those assets.
pub proof fn data_references_are_exact(data: Seq<ChunkDataView>)
    ensures
        data_references(data).len() == count_references(data),
        forall|asset: OutputAsset|
            references_hold(data_references(data), asset) <==> data_refers_to(data, asset),
    decreases data.len(),
{
    if data.len() > 0 {
        let prev = data.drop_last();
        let last = data.last();
        let head = data_references(prev);
        let tail = descriptor_references(last.references);
        let all = data_references(data);
        data_references_are_exact(prev);
        assert forall|asset: OutputAsset|
            references_hold(all, asset) <==> data_refers_to(data, asset) by {
            if references_hold(all, asset) {
                let j = choose|j: int| 0 <= j < all.len() && #[trigger] all[j].asset == asset;
                if j < head.len() {
                    assert(head[j].asset == asset);
                    assert(references_hold(head, asset));
                    assert(data_refers_to(prev, asset));
                    let (i, k) = choose|i: int, k: int|
                        0 <= i < prev.len() && 0 <= k < prev[i].references.len()
                            && #[trigger] prev[i].references[k] == asset;
                    assert(data[i].references[k] == asset);
                } else {
                    let k = j - head.len();
                    assert(tail[k].asset == last.references[k]);
                    assert(data[data.len() - 1].references[k] == asset);
                }
            }
            if data_refers_to(data, asset) {
                let (i, k) = choose|i: int, k: int|
                    0 <= i < data.len() && 0 <= k < data[i].references.len()
                        && #[trigger] data[i].references[k] == asset;
                if i < prev.len() {
                    assert(prev[i].references[k] == asset);
                    assert(data_refers_to(prev, asset));
                    assert(references_hold(head, asset));
                    let j = choose|j: int| 0 <= j < head.len() && #[trigger] head[j].asset == asset;
                    assert(all[j].asset == asset);
                } else {
                    assert(tail[k].asset == asset);
                    assert(all[head.len() + k].asset == asset);
                }
            }
        }
    }
}

/// Leaving out the references to assets already referred to loses no asset
/// and leaves none twice.
pub proof fn distinct_references_are_exact(references: Seq<ReferenceView>)
    ensures
        forall|asset: OutputAsset|
            references_hold(distinct_references(references), asset) <==> references_hold(
                references,
                asset,
            ),
        forall|i: int, j: int|
            0 <= i < j < distinct_references(references).len() ==> distinct_references(
                references,
            )[i].asset != distinct_references(references)[j].asset,
    decreases references.len(),
{
    if references.len() > 0 {
        let prev = references.drop_last();
        let last = references.last();
        let before = distinct_references(prev);
        let kept = distinct_references(references);
        distinct_references_are_exact(prev);
        assert forall|asset: OutputAsset|
            references_hold(kept, asset) <==> references_hold(references, asset) by {
            if references_hold(kept, asset) {
                let j = choose|j: int| 0 <= j < kept.len() && #[trigger] kept[j].asset == asset;
                if j < before.len() {
                    assert(before[j].asset == asset);
                    assert(references_hold(before, asset));
                    assert(references_hold(prev, asset));
                    let i = choose|i: int| 0 <= i < prev.len() && #[trigger] prev[i].asset == asset;
                    assert(references[i].asset == asset);
                } else {
                    assert(references[references.len() - 1].asset == asset);
                }
            }
            if references_hold(references, asset) {
                let i = choose|i: int|
                    0 <= i < references.len() && #[trigger] references[i].asset == asset;
                if i < prev.len() {
                    assert(prev[i].asset == asset);
                    assert(references_hold(prev, asset));
                    assert(references_hold(before, asset));
                    let j = choose|j: int| 0 <= j < before.len() && #[trigger] before[j].asset == asset;
                    assert(kept[j].asset == asset);
                } else if references_hold(before, last.asset) {
                    let j = choose|j: int|
                        0 <= j < before.len() && #[trigger] before[j].asset == last.asset;
                    assert(kept[j].asset == asset);
                } else {
                    assert(kept[before.len() as int].asset == asset);
                }
            }
        }
        assert forall|i: int, j: int| 0 <= i < j < kept.len() implies kept[i].asset
            != kept[j].asset by {
            if j == before.len() {
                assert(before[i].asset == kept[i].asset);
            }
        }
    }
}

/// What a loader reports as its references is complete, holds nothing else
/// and holds nothing twice: an asset is referred to exactly if it is one of
/// the manifest's chunks or one of their descriptors refers to it, and no two
/// references point at one asset.
pub proof fn references_are_complete(root: Seq<u8>, chunks: Seq<ChunkView>)
    ensures
        forall|asset: OutputAsset|
            references_hold(loader_references(root, chunks), asset) <==> has_chunk(chunks, asset)
                || data_refers_to(translate(root, chunks), asset),
        forall|i: int, j: int|
            0 <= i < j < loader_references(root, chunks).len() ==> loader_references(
                root,
                chunks,
            )[i].asset != loader_references(root, chunks)[j].asset,
{
    let data = translate(root, chunks);
    let head = chunk_references(chunks);
    let tail = data_references(data);
    let all = head + tail;
    data_references_are_exact(data);
    distinct_references_are_exact(all);
    assert forall|asset: OutputAsset|
        references_hold(loader_references(root, chunks), asset) <==> has_chunk(chunks, asset)
            || data_refers_to(data, asset) by {
        assert(references_hold(loader_references(root, chunks), asset) <==> references_hold(
            all,
            asset,
        ));
        if references_hold(all, asset) {
            let j = choose|j: int| 0 <= j < all.len() && #[trigger] all[j].asset == asset;
            if j < head.len() {
                assert(chunks[j].asset == asset);
            } else {
                assert(tail[j - head.len()].asset == asset);
                assert(references_hold(tail, asset));
                assert(data_refers_to(data, asset));
            }
        }
        if has_chunk(chunks, asset) {
            let i = choose|i: int| 0 <= i < chunks.len() && #[trigger] chunks[i].asset == asset;
            assert(all[i].asset == asset);
        }
        if data_refers_to(data, asset) {
            assert(references_hold(tail, asset));
            let j = choose|j: int| 0 <= j < tail.len() && #[trigger] tail[j].asset == asset;
            assert(all[head.len() + j].asset == asset);
        }
    }
}

/// No two descriptors of a manifest's chunks have the same path.
pub proof fn descriptors_have_distinct_paths(root: Seq<u8>, chunks: Seq<ChunkView>)
    ensures
        forall|i: int, j: int|
            0 <= i < j < translate(root, chunks).len() ==> translate(root, chunks)[i].path
                != translate(root, chunks)[j].path,
    decreases chunks.len(),
{
    if chunks.len() > 0 {
        let before = translate(root, chunks.drop_last());
        let data = translate(root, chunks);
        descriptors_have_distinct_paths(root, chunks.drop_last());
        assert forall|i: int, j: int| 0 <= i < j < data.len() implies data[i].path
            != data[j].path by {
            if j == before.len() {
                assert(before[i].path == data[i].path);
            }
        }
    }
}

/// Two loaders made from manifests with the same identity have the same
/// identity.
pub proof fn loader_identity_is_stable(first: ManifestLoaderItem, second: ManifestLoaderItem)
    requires
        first.manifest.ident@ == second.manifest.ident@,
    ensures
        ManifestLoaderItem::ident_of(first.manifest.ident@) == ManifestLoaderItem::ident_of(
            second.manifest.ident@,
        ),
{
}

} // verus!
