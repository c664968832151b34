use call_stack::reconcile::{reconcile, Frame, Override, Reconciled};
use call_stack::usage::Local;

fn frame(size: Option<u64>, modifies_sp: bool) -> Frame {
    Frame { size, modifies_sp }
}

#[test]
fn outlined_helper_override() {
    let r = reconcile("OUTLINED_FUNCTION_7", false, Local::Exact(0), frame(Some(24), true));
    assert_eq!(
        r,
        Reconciled { local: Local::Exact(24), replaced: Override::Outlined, contradicts_sp: false }
    );
}

#[test]
fn inline_assembly_override() {
    let r = reconcile("handler", true, Local::Exact(8), frame(Some(40), true));
    assert_eq!(
        r,
        Reconciled { local: Local::Exact(40), replaced: Override::InlineAsm, contradicts_sp: false }
    );
}

#[test]
fn other_disagreements_prefer_the_decoder() {
    let r = reconcile("main", false, Local::Exact(8), frame(Some(16), true));
    assert_eq!(r.local, Local::Exact(16));
    assert_eq!(r.replaced, Override::Mismatch);
    // an outlined helper for which the compiler reported something
    let r = reconcile("OUTLINED_FUNCTION_1", false, Local::Exact(8), frame(Some(16), true));
    assert_eq!(r.local, Local::Exact(16));
    assert_eq!(r.replaced, Override::Mismatch);
}

#[test]
fn agreement_changes_nothing() {
    let r = reconcile("main", true, Local::Exact(8), frame(Some(8), true));
    assert_eq!(
        r,
        Reconciled { local: Local::Exact(8), replaced: Override::Nothing, contradicts_sp: false }
    );
}

#[test]
fn a_single_source_is_used() {
    let r = reconcile("main", false, Local::Unknown, frame(Some(12), true));
    assert_eq!(r.local, Local::Exact(12));
    assert_eq!(r.replaced, Override::Nothing);
    let r = reconcile("main", false, Local::Exact(12), frame(None, true));
    assert_eq!(r.local, Local::Exact(12));
    assert_eq!(r.replaced, Override::Nothing);
}

#[test]
fn no_source_and_no_stack_pointer_change_means_no_stack() {
    let r = reconcile("spin", false, Local::Unknown, frame(None, false));
    assert_eq!(
        r,
        Reconciled { local: Local::Exact(0), replaced: Override::Nothing, contradicts_sp: false }
    );
    let r = reconcile("spin", false, Local::Unknown, frame(None, true));
    assert_eq!(r.local, Local::Unknown);
    assert!(!r.contradicts_sp);
}

#[test]
fn stack_pointer_cross_check() {
    assert!(reconcile("f", false, Local::Exact(8), frame(Some(8), false)).contradicts_sp);
    assert!(reconcile("f", false, Local::Exact(0), frame(Some(0), true)).contradicts_sp);
    assert!(!reconcile("f", false, Local::Exact(0), frame(Some(0), false)).contradicts_sp);
    assert!(reconcile("f", false, Local::Exact(4), frame(None, false)).contradicts_sp);
}
