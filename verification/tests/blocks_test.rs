use blocks::block::Block;
use blocks::clock::UtcTime;
use blocks::content::BaseBlockContent;
use blocks::content::BaseBlockTrait;
use blocks::content::BlockContent;
use blocks::content::BlockType;
use blocks::content::PageBlockContent;
use blocks::content::TextBlockContent;
use blocks::content::block_type_from_content_type;
use blocks::errors::BlockError;
use blocks::store::RawRow;
use blocks::store::Store;
use blocks::store::StoredBlock;

fn ts(text: &str) -> UtcTime {
    UtcTime { rfc3339: text.to_string() }
}

fn id_text(id: u128) -> String {
    uuid::Uuid::from_u128(id).to_string()
}

fn plain_block(id: u128, parent_id: u128, contents: &str) -> Block {
    Block {
        id,
        parent_id,
        block_type: "text".to_string(),
        block_contents: BlockContent::new("paragraph".to_string(), contents.to_string()),
        block_order: None,
        favorite: false,
        children: Vec::new(),
        created_at_utc: ts("2024-01-02T03:04:05+00:00"),
        updated_at_utc: ts("2024-01-02T03:04:05+00:00"),
    }
}

fn child_orders(store: &Store, parent: u128) -> Vec<(u128, i32)> {
    store
        .load_for_parent(parent)
        .into_iter()
        .map(|b| (b.id, b.block_order.unwrap()))
        .collect()
}

#[test]
fn insert_monotonicity() {
    let mut store = Store::new();
    let parent: u128 = 77;
    plain_block(1, parent, "a").save(&mut store).unwrap();
    let first = store.load_by_id(1).unwrap();
    assert_eq!(first.block_order, Some(0));

    plain_block(2, parent, "b").save(&mut store).unwrap();
    let second = store.load_by_id(2).unwrap();
    assert_eq!(second.block_order, Some(1));

    plain_block(3, parent, "c").save(&mut store).unwrap();
    assert_eq!(store.load_by_id(3).unwrap().block_order, Some(2));

    // A different, childless parent starts again at order 0.
    plain_block(4, 88, "d").save(&mut store).unwrap();
    assert_eq!(store.load_by_id(4).unwrap().block_order, Some(0));
}

#[test]
fn order_density_after_creates_and_reorders() {
    let mut store = Store::new();
    let parent: u128 = 5;
    for i in 0..6u128 {
        plain_block(10 + i, parent, "x").save(&mut store).unwrap();
    }
    // Shuffle around with several in-range moves.
    for (id, target) in [(15u128, 0i32), (10, 5), (12, 2), (14, 1)] {
        let b = store.load_by_id(id).unwrap();
        b.change_block_order(target, &mut store).unwrap();
    }
    let mut orders: Vec<i32> = child_orders(&store, parent).into_iter().map(|p| p.1).collect();
    orders.sort();
    assert_eq!(orders, vec![0, 1, 2, 3, 4, 5]);
}

#[test]
fn round_trip_save_then_load() {
    let mut store = Store::new();
    let mut b = plain_block(42, 9, "hello world");
    b.favorite = true;
    b.save(&mut store).unwrap();
    let loaded = store.load_by_id(42).unwrap();
    assert_eq!(loaded.id, 42);
    assert_eq!(loaded.parent_id, 9);
    assert_eq!(loaded.block_type, "text");
    assert_eq!(loaded.block_contents.content_type, "paragraph");
    assert_eq!(loaded.block_contents.contents.as_deref(), Some("hello world"));
    assert_eq!(loaded.block_contents.title, None);
    assert!(loaded.favorite);
    assert_eq!(loaded.created_at_utc.rfc3339, "2024-01-02T03:04:05+00:00");
    assert_eq!(loaded.updated_at_utc.rfc3339, "2024-01-02T03:04:05+00:00");
    // The one difference to the in-memory block: the order is now set, and
    // the children reflect storage.
    assert_eq!(loaded.block_order, Some(0));
    assert!(loaded.children.is_empty());
}

#[test]
fn save_again_updates_in_place() {
    let mut store = Store::new();
    plain_block(1, 7, "before").save(&mut store).unwrap();
    plain_block(2, 7, "other").save(&mut store).unwrap();

    let mut again = plain_block(1, 7, "after");
    again.favorite = true;
    again.save(&mut store).unwrap();

    let rows = store.load_for_parent(7);
    assert_eq!(rows.len(), 2);
    let reloaded = store.load_by_id(1).unwrap();
    assert_eq!(reloaded.block_contents.contents.as_deref(), Some("after"));
    assert!(reloaded.favorite);
    // Parentage and order keep their stored values.
    assert_eq!(reloaded.block_order, Some(0));
    assert_eq!(reloaded.parent_id, 7);
}

#[test]
fn bootstrap_idempotence() {
    let mut store = Store::new();
    let workspace_id: u128 = 1234;
    let first = Block::find_or_create_workspace_block(workspace_id, &mut store).unwrap();
    assert_eq!(store.len(), 2); // exactly one insert pair: workspace + home page
    assert_eq!(first.id, workspace_id);
    assert_eq!(first.block_type, "workspace");
    assert_eq!(first.children.len(), 1);
    let home = &first.children[0];
    assert_eq!(home.parent_id, workspace_id);
    assert_eq!(home.block_type, "page");
    assert!(home.favorite);
    assert_eq!(home.block_contents.contents.as_deref(), Some("Home"));
    assert_eq!(
        first.block_contents.contents.as_deref(),
        Some(id_text(home.id).as_str())
    );

    // The creating call returns the freshly reloaded block, so its order is
    // set and its children reflect storage.
    assert_eq!(first.block_order, Some(0));
    assert_eq!(home.block_order, Some(0));

    let second = Block::find_or_create_workspace_block(workspace_id, &mut store).unwrap();
    assert_eq!(store.len(), 2); // no further insert
    // Both calls return equal workspace blocks, in every field.
    assert_eq!(second.id, first.id);
    assert_eq!(second.parent_id, first.parent_id);
    assert_eq!(second.block_type, first.block_type);
    assert_eq!(second.block_contents.content_type, first.block_contents.content_type);
    assert_eq!(second.block_contents.contents, first.block_contents.contents);
    assert_eq!(second.block_contents.title, first.block_contents.title);
    assert_eq!(second.block_order, first.block_order);
    assert_eq!(second.favorite, first.favorite);
    assert_eq!(second.created_at_utc.rfc3339, first.created_at_utc.rfc3339);
    assert_eq!(second.updated_at_utc.rfc3339, first.updated_at_utc.rfc3339);
    assert_eq!(second.children.len(), 1);
    assert_eq!(second.children[0].id, home.id);
    assert_eq!(second.children[0].block_order, home.block_order);
    assert_eq!(second.children[0].block_contents.contents, home.block_contents.contents);
}

#[test]
fn reorder_invariant_preservation() {
    // Four children A(0) B(1) C(2) D(3); moving D to position 1 yields
    // A(0) D(1) B(2) C(3).
    let mut store = Store::new();
    let parent: u128 = 50;
    let (a, b, c, d) = (101u128, 102u128, 103u128, 104u128);
    for id in [a, b, c, d] {
        plain_block(id, parent, "x").save(&mut store).unwrap();
    }
    let moved = store.load_by_id(d).unwrap();
    let reloaded = moved.change_block_order(1, &mut store).unwrap();
    assert_eq!(reloaded.id, d);
    assert_eq!(reloaded.block_order, Some(1));
    assert_eq!(child_orders(&store, parent), vec![(a, 0), (d, 1), (b, 2), (c, 3)]);
}

#[test]
fn reorder_errors() {
    let mut store = Store::new();
    let parent: u128 = 3;
    plain_block(1, parent, "x").save(&mut store).unwrap();
    plain_block(2, parent, "y").save(&mut store).unwrap();

    let absent = plain_block(99, parent, "z");
    assert_eq!(absent.change_block_order(0, &mut store).unwrap_err(), BlockError::NotFound);

    let b = store.load_by_id(1).unwrap();
    assert_eq!(b.change_block_order(2, &mut store).unwrap_err(), BlockError::ContractViolation);
    let b = store.load_by_id(1).unwrap();
    assert_eq!(b.change_block_order(-1, &mut store).unwrap_err(), BlockError::ContractViolation);
    // The failed calls left the table unchanged.
    assert_eq!(child_orders(&store, parent), vec![(1, 0), (2, 1)]);
}

#[test]
fn recursive_hydration_three_levels() {
    let mut store = Store::new();
    let workspace: u128 = 900;
    let page: u128 = 901;
    let (t1, t2) = (902u128, 903u128);

    let mut ws = plain_block(workspace, 999, "");
    ws.block_type = "workspace".to_string();
    ws.save(&mut store).unwrap();

    let mut pg = plain_block(page, workspace, "Home");
    pg.block_type = "page".to_string();
    pg.save(&mut store).unwrap();

    plain_block(t1, page, "first").save(&mut store).unwrap();
    plain_block(t2, page, "second").save(&mut store).unwrap();

    let loaded = store.load_by_id(page).unwrap();
    assert_eq!(loaded.children.len(), 2);
    assert_eq!(loaded.children[0].id, t1);
    assert_eq!(loaded.children[1].id, t2);
    assert!(loaded.children[0].children.is_empty());
    assert!(loaded.children[1].children.is_empty());

    // The workspace sees the whole tree below it.
    let top = store.load_by_id(workspace).unwrap();
    assert_eq!(top.children.len(), 1);
    assert_eq!(top.children[0].id, page);
    assert_eq!(top.children[0].children.len(), 2);
}

#[test]
fn interleaved_creates_stay_dense() {
    // Many creates under one parent, interleaved with creates under
    // another, yield distinct contiguous orders with no duplicates. The
    // table is held by exclusive reference, so concurrent writers must
    // serialize on it; this drives the same interleaving sequentially.
    let mut store = Store::new();
    let parent: u128 = 1;
    let other: u128 = 2;
    for i in 0..10u128 {
        plain_block(100 + i, parent, "p").save(&mut store).unwrap();
        plain_block(200 + i, other, "q").save(&mut store).unwrap();
    }
    let orders: Vec<i32> = child_orders(&store, parent).into_iter().map(|p| p.1).collect();
    assert_eq!(orders, (0..10).collect::<Vec<i32>>());
    let orders: Vec<i32> = child_orders(&store, other).into_iter().map(|p| p.1).collect();
    assert_eq!(orders, (0..10).collect::<Vec<i32>>());
}

#[test]
fn load_last_block_in_same_page_finds_max() {
    let mut store = Store::new();
    let parent: u128 = 4;
    let probe = plain_block(999, parent, "probe");
    assert!(probe.load_last_block_in_same_page(&store).is_none());
    plain_block(1, parent, "a").save(&mut store).unwrap();
    plain_block(2, parent, "b").save(&mut store).unwrap();
    let last = probe.load_last_block_in_same_page(&store).unwrap();
    assert_eq!(last.id, 2);
    assert_eq!(last.block_order, Some(1));
}

#[test]
fn load_home_page_creates_then_finds() {
    let mut store = Store::new();
    let workspace: u128 = 321;
    let created = blocks::store::load_home_page(workspace, &mut store).unwrap();
    assert_eq!(created.parent_id, workspace);
    assert_eq!(created.block_type, "page");
    assert_eq!(created.block_contents.contents.as_deref(), Some("Home"));
    assert_eq!(created.block_order, None);
    assert_eq!(store.len(), 1);

    let found = blocks::store::load_home_page(workspace, &mut store).unwrap();
    assert_eq!(found.id, created.id);
    assert_eq!(found.block_order, Some(0));
    assert_eq!(store.len(), 1);
}

#[test]
fn block_type_mapping() {
    assert_eq!(block_type_from_content_type("paragraph"), "text");
    assert_eq!(block_type_from_content_type("page"), "page");
    assert_eq!(block_type_from_content_type("anything-else"), "text");
    assert_eq!(BlockType::default(), BlockType::Text);
}

#[test]
fn block_new_derives_fields() {
    let b = Block::new(17, "page".to_string(), "raw".to_string());
    assert_eq!(b.parent_id, 17);
    assert_eq!(b.block_type, "page");
    assert_eq!(b.block_contents.content_type, "page");
    assert_eq!(b.block_contents.contents.as_deref(), Some("raw"));
    assert_eq!(b.block_contents.title, None);
    assert_eq!(b.block_order, None);
    assert!(!b.favorite);
    assert!(b.children.is_empty());
    // The generated identifier renders to canonical 36-character text.
    let text = id_text(b.id);
    assert_eq!(text.len(), 36);
    assert_eq!(uuid::Uuid::parse_str(&text).unwrap().as_u128(), b.id);
    // The generated timestamps are RFC 3339 text that chrono accepts.
    assert!(chrono::DateTime::parse_from_rfc3339(&b.created_at_utc.rfc3339).is_ok());
    assert!(chrono::DateTime::parse_from_rfc3339(&b.updated_at_utc.rfc3339).is_ok());
}

#[test]
fn content_trait_reads_shared_part() {
    let t = TextBlockContent {
        base_content: BaseBlockContent { content_type: "paragraph".to_string() },
    };
    assert_eq!(t.get_content_type(), "paragraph");
    let p = PageBlockContent {
        base_content: BaseBlockContent { content_type: "page".to_string() },
    };
    assert_eq!(p.get_content_type(), "page");
}

#[test]
fn content_json_exact_text() {
    let c = BlockContent::new("paragraph".to_string(), "hi".to_string());
    assert_eq!(c.to_json(), "{\"content_type\":\"paragraph\",\"contents\":\"hi\",\"title\":null}");
    let both = BlockContent {
        content_type: "page".to_string(),
        contents: None,
        title: Some("A \"quoted\"\ntitle".to_string()),
    };
    assert_eq!(
        both.to_json(),
        "{\"content_type\":\"page\",\"contents\":null,\"title\":\"A \\\"quoted\\\"\\ntitle\"}"
    );
}

#[test]
fn content_json_round_trip() {
    let original = BlockContent {
        content_type: "paragraph".to_string(),
        contents: Some("line one\nline two\t\"quoted\" back\\slash \u{1} end".to_string()),
        title: None,
    };
    let text = original.to_json();
    let decoded = BlockContent::from_json_string(&text).unwrap();
    assert_eq!(decoded.content_type, original.content_type);
    assert_eq!(decoded.contents, original.contents);
    assert_eq!(decoded.title, original.title);
}

#[test]
fn content_json_accepts_short_control_escapes() {
    // The original application's encoder wrote backspace and form feed as
    // \b and \f; such stored payloads still decode.
    let text = "{\"content_type\":\"paragraph\",\"contents\":\"a\\bz\\fq\",\"title\":null}";
    let decoded = BlockContent::from_json_string(text).unwrap();
    assert_eq!(decoded.contents.as_deref(), Some("a\u{8}z\u{c}q"));
    // The canonical encoder keeps the \u form, and that round-trips too.
    let reencoded = decoded.to_json();
    assert_eq!(
        reencoded,
        "{\"content_type\":\"paragraph\",\"contents\":\"a\\u0008z\\u000cq\",\"title\":null}"
    );
    let again = BlockContent::from_json_string(&reencoded).unwrap();
    assert_eq!(again.contents, decoded.contents);
}

#[test]
fn content_json_rejects_non_canonical() {
    assert_eq!(
        BlockContent::from_json_string("garbage").unwrap_err(),
        BlockError::DecodeError
    );
    // Valid JSON, but not the canonical field order.
    assert_eq!(
        BlockContent::from_json_string(
            "{\"contents\":\"hi\",\"content_type\":\"paragraph\",\"title\":null}"
        )
        .unwrap_err(),
        BlockError::DecodeError
    );
    // Trailing text after the object.
    assert_eq!(
        BlockContent::from_json_string(
            "{\"content_type\":\"a\",\"contents\":null,\"title\":null} "
        )
        .unwrap_err(),
        BlockError::DecodeError
    );
}

#[test]
fn from_row_strict_decode() {
    let id: u128 = 0x1234_5678_9abc_def0_1122_3344_5566_7788;
    let parent: u128 = 42;
    let data = BlockContent::new("paragraph".to_string(), "body".to_string()).to_json();
    let good = RawRow {
        id: id_text(id),
        parent_id: id_text(parent),
        block_type: "text".to_string(),
        data: data.clone(),
        block_order: 3,
        favorite: true,
        created_at_utc: "2024-01-02T03:04:05+00:00".to_string(),
        updated_at_utc: "2024-01-02T03:04:05.123456+00:00".to_string(),
    };
    let decoded = StoredBlock::from_row(&good).unwrap();
    assert_eq!(decoded.id, id);
    assert_eq!(decoded.parent_id, parent);
    assert_eq!(decoded.block_type, "text");
    assert_eq!(decoded.content.contents.as_deref(), Some("body"));
    assert_eq!(decoded.block_order, 3);
    assert!(decoded.favorite);
    assert_eq!(decoded.created_at_utc.rfc3339, "2024-01-02T03:04:05+00:00");

    let bad_id = RawRow { id: "not-a-uuid".to_string(), ..clone_row(&good) };
    assert_eq!(StoredBlock::from_row(&bad_id).unwrap_err(), BlockError::DecodeError);

    let bad_time = RawRow { created_at_utc: "yesterday".to_string(), ..clone_row(&good) };
    assert_eq!(StoredBlock::from_row(&bad_time).unwrap_err(), BlockError::DecodeError);

    let bad_data = RawRow { data: "{}".to_string(), ..clone_row(&good) };
    assert_eq!(StoredBlock::from_row(&bad_data).unwrap_err(), BlockError::DecodeError);

    let bad_order = RawRow { block_order: -1, ..clone_row(&good) };
    assert_eq!(StoredBlock::from_row(&bad_order).unwrap_err(), BlockError::DecodeError);
}

fn clone_row(r: &RawRow) -> RawRow {
    RawRow {
        id: r.id.clone(),
        parent_id: r.parent_id.clone(),
        block_type: r.block_type.clone(),
        data: r.data.clone(),
        block_order: r.block_order,
        favorite: r.favorite,
        created_at_utc: r.created_at_utc.clone(),
        updated_at_utc: r.updated_at_utc.clone(),
    }
}

#[test]
fn generated_identifiers_are_distinct() {
    let a = Block::new(1, "paragraph".to_string(), "x".to_string());
    let b = Block::new(1, "paragraph".to_string(), "y".to_string());
    assert_ne!(a.id, b.id);
}

#[test]
fn from_row_accepts_negative_offset_timestamp() {
    let data = BlockContent::new("paragraph".to_string(), "t".to_string()).to_json();
    let row = RawRow {
        id: id_text(8),
        parent_id: id_text(9),
        block_type: "text".to_string(),
        data,
        block_order: 0,
        favorite: false,
        created_at_utc: "1996-12-19T16:39:57-08:00".to_string(),
        updated_at_utc: "1996-12-19T16:39:57-08:00".to_string(),
    };
    assert!(StoredBlock::from_row(&row).is_ok());
}
