use turbopack_ecmascript::manifest::loader_item::{
    chunk_data_reference_description, manifest_loader_chunk_reference_description, modifier,
    path_below, write_chunks_literal, write_loader_code, write_module_id, AssetIdent,
    AvailabilityInfo, Chunk, ChunkData, ChunkingContext, ContentError, ManifestChunkAsset,
    ManifestLoaderItem, ModuleId, OutputAsset, SingleOutputAssetReference,
};

fn ident(path: &str, modifiers: &[&str]) -> AssetIdent {
    AssetIdent {
        path: path.to_string(),
        modifiers: modifiers.iter().map(|m| m.to_string()).collect(),
    }
}

fn loader(manifest_path: &str, root: &str) -> ManifestLoaderItem {
    ManifestLoaderItem::new(
        ManifestChunkAsset {
            ident: ident(manifest_path, &["manifest chunk"]),
            chunking_context: ChunkingContext { output_root: root.as_bytes().to_vec() },
        },
        ChunkingContext { output_root: root.as_bytes().to_vec() },
    )
}

fn chunk(id: u64, path: &str, references: &[u64]) -> Chunk {
    Chunk {
        asset: OutputAsset { id },
        path: path.as_bytes().to_vec(),
        references: references.iter().map(|&id| OutputAsset { id }).collect(),
    }
}

fn data_of(data: Vec<ChunkData>) -> Vec<ChunkData> {
    data
}

fn references_of(references: Vec<SingleOutputAssetReference>) -> Vec<(u64, String)> {
    references.into_iter().map(|r| (r.asset.id, r.description)).collect()
}

fn ids(assets: Vec<OutputAsset>) -> Vec<u64> {
    assets.iter().map(|a| a.id).collect()
}

fn position(text: &str, part: &str) -> usize {
    match text.find(part) {
        Some(at) => at,
        None => panic!("{part:?} is not in the code"),
    }
}

#[test]
fn fixed_words() {
    assert_eq!(modifier(), "loader");
    assert_eq!(manifest_loader_chunk_reference_description(), "manifest loader chunk");
    assert_eq!(chunk_data_reference_description(), "chunk data reference");
    assert_eq!(ContentError::NotPlaceable.message(), "asset is not placeable in ecmascript chunk");
}

#[test]
fn new_keeps_what_it_is_given() {
    let item = loader("src/page.js", "out");
    assert_eq!(item.manifest.ident.path, "src/page.js");
    assert_eq!(item.manifest.ident.modifiers, vec!["manifest chunk".to_string()]);
    assert_eq!(item.chunking_context.output_root, b"out".to_vec());
    assert_eq!(item.chunking_context().output_root, b"out".to_vec());
}

#[test]
fn with_modifier_appends() {
    let base = ident("a.js", &["x"]);
    let derived = base.with_modifier("y".to_string());
    assert_eq!(derived.path, "a.js");
    assert_eq!(derived.modifiers, vec!["x".to_string(), "y".to_string()]);
    assert_eq!(base.modifiers, vec!["x".to_string()]);
}

#[test]
fn asset_ident_is_the_manifests_with_loader() {
    let item = loader("src/page.js", "out");
    let ident = item.asset_ident();
    assert_eq!(ident.path, "src/page.js");
    assert_eq!(ident.modifiers, vec!["manifest chunk".to_string(), "loader".to_string()]);
}

#[test]
fn equal_loaders_have_equal_identity() {
    let first = loader("src/page.js", "out").asset_ident();
    let second = loader("src/page.js", "out").asset_ident();
    assert_eq!(first.path, second.path);
    assert_eq!(first.modifiers, second.modifiers);
    let other = loader("src/other.js", "out").asset_ident();
    assert_ne!(first.path, other.path);
}

#[test]
fn path_below_root() {
    let root = b"out".to_vec();
    assert_eq!(path_below(&root, &b"out/chunks/a.js".to_vec()), Some(b"chunks/a.js".to_vec()));
    assert_eq!(path_below(&root, &b"out/".to_vec()), Some(Vec::new()));
}

#[test]
fn path_below_empty_root_is_the_path() {
    assert_eq!(path_below(&Vec::new(), &b"a/b.js".to_vec()), Some(b"a/b.js".to_vec()));
    assert_eq!(path_below(&Vec::new(), &Vec::new()), Some(Vec::new()));
}

#[test]
fn path_outside_root_is_none() {
    let root = b"out".to_vec();
    assert_eq!(path_below(&root, &b"out".to_vec()), None);
    assert_eq!(path_below(&root, &b"out2/a.js".to_vec()), None);
    assert_eq!(path_below(&root, &b"src/a.js".to_vec()), None);
    assert_eq!(path_below(&root, &b"ou".to_vec()), None);
    assert_eq!(path_below(&root, &Vec::new()), None);
}

#[test]
fn chunks_data_translates_in_order() {
    let item = loader("src/page.js", "out");
    let chunks = vec![chunk(1, "out/a.js", &[10]), chunk(3, "out/sub/c.js", &[30, 31])];
    let data = data_of(item.chunks_data(&chunks));
    assert_eq!(data.len(), 2);
    assert_eq!(data[0].path, b"a.js".to_vec());
    assert_eq!(data[0].references, vec![OutputAsset { id: 10 }]);
    assert_eq!(data[1].path, b"sub/c.js".to_vec());
    assert_eq!(data[1].references, vec![OutputAsset { id: 30 }, OutputAsset { id: 31 }]);
}

#[test]
fn chunks_outside_the_root_are_named() {
    let item = loader("src/page.js", "out");
    let chunks = vec![
        chunk(1, "out/a.js", &[10]),
        chunk(2, "elsewhere/b.js", &[20]),
        chunk(3, "out/sub/c.js", &[30, 31]),
        chunk(4, "out", &[]),
    ];
    assert_eq!(ids(item.missing_chunk_data(&chunks)), vec![2, 4]);
    assert_eq!(ids(item.missing_chunk_data(&vec![chunk(9, "x.js", &[])])), vec![9]);
    assert!(item.missing_chunk_data(&vec![chunk(1, "out/a.js", &[])]).is_empty());
    assert!(item.missing_chunk_data(&Vec::new()).is_empty());
    let data = item.chunks_data(&chunks);
    assert_eq!(data.len(), 2);
    assert_eq!(data[0].path, b"a.js".to_vec());
    assert_eq!(data[1].path, b"sub/c.js".to_vec());
    assert!(item.chunks_data(&vec![chunk(9, "x.js", &[])]).is_empty());
}

#[test]
fn chunks_data_keeps_the_first_descriptor_of_a_path() {
    let item = loader("src/page.js", "");
    let chunks = vec![
        chunk(1, "a.js", &[10]),
        chunk(2, "b.js", &[20]),
        chunk(3, "a.js", &[30]),
        chunk(4, "a.js", &[]),
    ];
    let data = data_of(item.chunks_data(&chunks));
    assert_eq!(data.len(), 2);
    assert_eq!(data[0].path, b"a.js".to_vec());
    assert_eq!(data[0].references, vec![OutputAsset { id: 10 }]);
    assert_eq!(data[1].path, b"b.js".to_vec());
    assert_eq!(data[1].references, vec![OutputAsset { id: 20 }]);
}

#[test]
fn chunks_data_of_no_chunks_is_empty() {
    let item = loader("src/page.js", "out");
    assert!(data_of(item.chunks_data(&Vec::new())).is_empty());
}

#[test]
fn chunks_data_uses_the_loaders_root() {
    let item = ManifestLoaderItem::new(
        ManifestChunkAsset {
            ident: ident("m", &[]),
            chunking_context: ChunkingContext { output_root: b"other".to_vec() },
        },
        ChunkingContext { output_root: b"out".to_vec() },
    );
    let data = data_of(item.chunks_data(&vec![chunk(1, "out/a.js", &[])]));
    assert_eq!(data.len(), 1);
    assert_eq!(data[0].path, b"a.js".to_vec());
    assert_eq!(ids(item.missing_chunk_data(&vec![chunk(2, "other/b.js", &[])])), vec![2]);
    assert!(item.chunks_data(&vec![chunk(2, "other/b.js", &[])]).is_empty());
}

#[test]
fn references_hold_chunks_then_their_assets() {
    let item = loader("src/page.js", "out");
    let chunks = vec![chunk(1, "out/a.js", &[10]), chunk(2, "out/b.js", &[20, 21])];
    assert_eq!(
        references_of(item.references(&chunks)),
        vec![
            (1, "manifest loader chunk".to_string()),
            (2, "manifest loader chunk".to_string()),
            (10, "chunk data reference".to_string()),
            (20, "chunk data reference".to_string()),
            (21, "chunk data reference".to_string()),
        ]
    );
}

#[test]
fn references_hold_no_asset_twice() {
    let item = loader("src/page.js", "out");
    let chunks = vec![
        chunk(1, "out/a.js", &[10, 2, 10]),
        chunk(2, "out/b.js", &[20, 10, 1]),
        chunk(1, "out/c.js", &[30]),
    ];
    assert_eq!(
        references_of(item.references(&chunks)),
        vec![
            (1, "manifest loader chunk".to_string()),
            (2, "manifest loader chunk".to_string()),
            (10, "chunk data reference".to_string()),
            (20, "chunk data reference".to_string()),
            (30, "chunk data reference".to_string()),
        ]
    );
}

#[test]
fn references_of_a_chunk_outside_the_root() {
    let item = loader("src/page.js", "out");
    let chunks = vec![chunk(1, "out/a.js", &[10]), chunk(2, "far/b.js", &[20])];
    assert_eq!(
        references_of(item.references(&chunks)),
        vec![
            (1, "manifest loader chunk".to_string()),
            (2, "manifest loader chunk".to_string()),
            (10, "chunk data reference".to_string()),
        ]
    );
}

#[test]
fn references_of_no_chunks_are_none() {
    let item = loader("src/page.js", "out");
    assert!(references_of(item.references(&Vec::new())).is_empty());
}

#[test]
fn as_chunk_describes_the_carrier() {
    let item = loader("src/page.js", "out");
    let info = AvailabilityInfo::Root { current_availability_root: 7 };
    let chunk = item.as_chunk(info);
    assert_eq!(chunk.output_root, b"out".to_vec());
    assert_eq!(chunk.main_entry.path, "src/page.js");
    assert_eq!(chunk.main_entry.modifiers, vec!["manifest chunk".to_string()]);
    assert_eq!(chunk.availability_info, info);
    assert_eq!(item.as_chunk(AvailabilityInfo::Untracked).availability_info, AvailabilityInfo::Untracked);
}

#[test]
fn content_is_the_loader_code() {
    let item = loader("src/page.js", "out");
    let chunks = vec![
        chunk(1, "out/a.js", &[10]),
        chunk(2, "out/a.js", &[]),
        chunk(3, "out/b\"c.js", &[]),
    ];
    let content =
        item.content(&chunks, &ModuleId::String("m".to_string()), Some(&ModuleId::Number(42)));
    let code = match content {
        Ok(content) => String::from_utf8(content.inner_code).unwrap(),
        Err(error) => panic!("no code: {error:?}"),
    };
    assert_eq!(
        code,
        "__turbopack_export_value__((__turbopack_import__) => {\n    return Promise.all([\"a.js\",\"b\\\"c.js\"].map((chunk) => __turbopack_load__(chunk))).then(() => {\n        return __turbopack_require__(\"m\");\n    }).then((chunks) => {\n        return Promise.all(chunks.map((chunk) => __turbopack_load__(chunk)));\n    }).then(() => {\n        return __turbopack_import__(42);\n    });\n});\n"
    );
}

#[test]
fn content_without_chunks() {
    let item = loader("src/page.js", "out");
    let content = item.content(&Vec::new(), &ModuleId::Number(0), Some(&ModuleId::Number(1)));
    let code = match content {
        Ok(content) => String::from_utf8(content.inner_code).unwrap(),
        Err(error) => panic!("no code: {error:?}"),
    };
    assert!(code.contains("return Promise.all([].map((chunk) => __turbopack_load__(chunk)))"));
    assert!(code.contains("return __turbopack_require__(0);"));
    assert!(code.contains("return __turbopack_import__(1);"));
}

#[test]
fn module_id_literals() {
    assert_eq!(write_module_id(&ModuleId::Number(0)), b"0".to_vec());
    assert_eq!(write_module_id(&ModuleId::Number(7)), b"7".to_vec());
    assert_eq!(write_module_id(&ModuleId::Number(10)), b"10".to_vec());
    assert_eq!(write_module_id(&ModuleId::Number(1905)), b"1905".to_vec());
    assert_eq!(write_module_id(&ModuleId::Number(u32::MAX)), b"4294967295".to_vec());
    assert_eq!(write_module_id(&ModuleId::String(String::new())), b"\"\"".to_vec());
    assert_eq!(
        write_module_id(&ModuleId::String("[project]/a.js".to_string())),
        b"\"[project]/a.js\"".to_vec()
    );
    assert_eq!(
        write_module_id(&ModuleId::String("a\nb\\c".to_string())),
        b"\"a\\nb\\\\c\"".to_vec()
    );
}

#[test]
fn chunk_list_literals() {
    let data = |path: &str| ChunkData { path: path.as_bytes().to_vec(), references: Vec::new() };
    assert_eq!(write_chunks_literal(&Vec::new()), b"[]".to_vec());
    assert_eq!(write_chunks_literal(&vec![data("a.js")]), b"[\"a.js\"]".to_vec());
    assert_eq!(
        write_chunks_literal(&vec![data("a.js"), data(""), data("c/d.js")]),
        b"[\"a.js\",\"\",\"c/d.js\"]".to_vec()
    );
}

#[test]
fn content_with_empty_literals() {
    let code = String::from_utf8(write_loader_code(b"", b"", b"")).unwrap();
    assert_eq!(
        code,
        "__turbopack_export_value__((__turbopack_import__) => {\n    return Promise.all(.map((chunk) => __turbopack_load__(chunk))).then(() => {\n        return __turbopack_require__();\n    }).then((chunks) => {\n        return Promise.all(chunks.map((chunk) => __turbopack_load__(chunk)));\n    }).then(() => {\n        return __turbopack_import__();\n    });\n});\n"
    );
}

#[test]
fn content_of_an_asset_without_a_place_fails() {
    let item = loader("src/page.js", "out");
    for chunks in [vec![chunk(1, "out/a.js", &[])], vec![chunk(2, "far/b.js", &[])], Vec::new()] {
        match item.content(&chunks, &ModuleId::Number(1), None) {
            Err(error) => assert_eq!(error, ContentError::NotPlaceable),
            Ok(content) => panic!("code was written: {content:?}"),
        }
    }
}

#[test]
fn content_lists_the_chunks_that_have_chunk_data() {
    let item = loader("src/page.js", "out");
    let chunks = vec![chunk(1, "out/a.js", &[]), chunk(2, "far/b.js", &[])];
    let code = match item.content(&chunks, &ModuleId::Number(1), Some(&ModuleId::Number(2))) {
        Ok(content) => String::from_utf8(content.inner_code).unwrap(),
        Err(error) => panic!("no code: {error:?}"),
    };
    assert!(code.contains("return Promise.all([\"a.js\"].map((chunk) => __turbopack_load__(chunk)))"));
}

#[test]
fn loader_runs_its_phases_in_order() {
    let item = loader("src/m.js", "out");
    let chunks = vec![chunk(1, "out/A.js", &[]), chunk(2, "out/B.js", &[])];
    let content = item.content(
        &chunks,
        &ModuleId::String("manifest item".to_string()),
        Some(&ModuleId::String("M".to_string())),
    );
    let code = match content {
        Ok(content) => String::from_utf8(content.inner_code).unwrap(),
        Err(error) => panic!("no code: {error:?}"),
    };
    let declared = position(
        &code,
        "Promise.all([\"A.js\",\"B.js\"].map((chunk) => __turbopack_load__(chunk)))",
    );
    let manifest = position(&code, "__turbopack_require__(\"manifest item\")");
    let discovered =
        position(&code, "Promise.all(chunks.map((chunk) => __turbopack_load__(chunk)))");
    let target = position(&code, "__turbopack_import__(\"M\")");
    assert!(declared < manifest);
    assert!(manifest < discovered);
    assert!(discovered < target);
    assert!(code.starts_with("__turbopack_export_value__((__turbopack_import__) => {"));
    assert_eq!(code.matches(".then(").count(), 3);
}

#[test]
fn a_path_that_is_no_text_is_written_with_a_mark() {
    let data = vec![ChunkData { path: vec![b'a', 0xff, b'b'], references: Vec::new() }];
    assert_eq!(write_chunks_literal(&data), "[\"a\u{fffd}b\"]".as_bytes().to_vec());
}
