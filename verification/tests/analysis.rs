use brainfuck::hir::optimized_hir;
use brainfuck::mir::optimized_mir;
use brainfuck::mir::state::{
    CellState, MemoryState, MemoryStateChange, Store, StoreKind,
};
use brainfuck::parse::parse;

#[test]
fn store_liveness_transitions() {
    let mut tag = Store::dead();
    assert_eq!(tag.kind, StoreKind::Dead);
    assert!(tag.is_maybe_dead());

    // a read of a dead tag means exactly one read
    tag.add_load();
    assert_eq!(tag.kind, StoreKind::UsedExact(1));
    assert!(!tag.is_maybe_dead());

    tag.add_load();
    assert_eq!(tag.kind, StoreKind::UsedExact(2));

    // an opaque event downstream turns the exact count into a lower bound
    tag.clobber();
    assert_eq!(tag.kind, StoreKind::UsedAtLeast(2));

    tag.mark_dead();
    assert_eq!(tag.kind, StoreKind::Dead);

    // clobbering a dead tag loses all knowledge
    tag.clobber();
    assert_eq!(tag.kind, StoreKind::Unknown);
    assert!(tag.is_maybe_dead());

    tag.add_load();
    assert_eq!(tag.kind, StoreKind::UsedAtLeast(1));
}

#[test]
fn state_lookup_walks_the_chain_and_rebases_offsets() {
    let mut states = MemoryState::new_arena();
    let root = states.empty();
    // a known write two cells to the right
    let wrote = states.single(
        root,
        MemoryStateChange::Change {
            offset: 2,
            new_state: CellState::WrittenToKnown(0, 7),
        },
    );
    // then the pointer moved one cell right
    let moved = states.single(wrote, MemoryStateChange::Move(1));

    // a move rebases lookups: queries past it carry the shifted offset
    assert_eq!(
        states.state_for_offset(moved, 3),
        CellState::WrittenToKnown(0, 7)
    );
    // and the old offset no longer matches it
    assert_eq!(states.state_for_offset(moved, 2), CellState::Unknown);
    // the write is still visible from its own node
    assert_eq!(
        states.state_for_offset(wrote, 2),
        CellState::WrittenToKnown(0, 7)
    );
}

#[test]
fn forget_hides_everything_before_it() {
    let mut states = MemoryState::new_arena();
    let root = states.empty();
    let wrote = states.single(
        root,
        MemoryStateChange::Change {
            offset: 0,
            new_state: CellState::WrittenToKnown(0, 3),
        },
    );
    let after_loop = states.double(
        wrote,
        MemoryStateChange::Change {
            offset: 0,
            new_state: CellState::LoopNull,
        },
        MemoryStateChange::Forget,
    );
    assert!(states.has_forget_delta(after_loop));
    assert!(!states.has_forget_delta(wrote));
    // the loop-controlling cell is known zero; the forget behind it hides
    // everything else, the earlier write included
    assert_eq!(states.state_for_offset(after_loop, 0), CellState::LoopNull);
    assert_eq!(states.state_for_offset(after_loop, 1), CellState::Unknown);
    // the hidden write is still visible from its own node
    assert_eq!(
        states.state_for_offset(wrote, 0),
        CellState::WrittenToKnown(0, 3)
    );
}

#[test]
fn analysis_marks_an_overwritten_unread_store_dead() {
    // the first write to the cell is never read before the second
    let ast = parse("+++[-]".as_bytes()).unwrap();
    let hir = optimized_hir(&ast);
    let (mir, _states, stores) = optimized_mir(&hir);
    assert!(!mir.stmts.is_empty());
    let dead = stores
        .items
        .iter()
        .filter(|s| s.kind == StoreKind::Dead)
        .count();
    assert!(dead >= 1);
}

#[test]
fn analysis_counts_an_output_as_a_read() {
    // the single write is read once, by the output statement
    let ast = parse("+.".as_bytes()).unwrap();
    let hir = optimized_hir(&ast);
    let (_mir, _states, stores) = optimized_mir(&hir);
    assert_eq!(stores.items.len(), 1);
    assert_eq!(stores.items[0].kind, StoreKind::UsedAtLeast(1));
}

#[test]
fn analysis_counts_a_loop_as_a_read_and_keeps_body_tags_unknown() {
    // the outer write is read by the loop head; the body's own write is
    // never walked, so nothing is known of it
    let ast = parse("+[.-]".as_bytes()).unwrap();
    let hir = optimized_hir(&ast);
    let (_mir, _states, stores) = optimized_mir(&hir);
    assert_eq!(stores.items.len(), 2);
    assert_eq!(stores.items[0].kind, StoreKind::UsedAtLeast(1));
    assert_eq!(stores.items[1].kind, StoreKind::Unknown);
}
