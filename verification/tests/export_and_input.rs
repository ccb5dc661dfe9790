use indexmap::IndexMap;
use layers::catalog::{GroupEntry, Groups};
use layers::export::{
    collect_chain_plugins, collect_group_plugins, collect_master_plugins, poll_export_progress,
    EffectChain, EffectChains, EffectSlot, ExportPoll, ToastKind,
};
use layers::input::InputFocus;

fn chains() -> EffectChains {
    let mut c = IndexMap::new();
    c.insert(
        100,
        EffectChain {
            slots: vec![EffectSlot { bypass: false }, EffectSlot { bypass: true }, EffectSlot { bypass: false }],
        },
    );
    c.insert(101, EffectChain { slots: vec![EffectSlot { bypass: true }] });
    c
}

fn groups() -> Groups {
    let mut g = IndexMap::new();
    g.insert(1, GroupEntry { name: "A".to_string(), member_ids: vec![], effect_chain_id: Some(100) });
    g.insert(2, GroupEntry { name: "B".to_string(), member_ids: vec![], effect_chain_id: None });
    g.insert(3, GroupEntry { name: "C".to_string(), member_ids: vec![], effect_chain_id: Some(555) });
    g
}

#[test]
fn chain_plugins_skip_bypassed_slots() {
    let c = chains();
    assert_eq!(collect_chain_plugins(&c, 100), vec![0, 2]);
    assert_eq!(collect_chain_plugins(&c, 101), Vec::<usize>::new());
    assert_eq!(collect_chain_plugins(&c, 7), Vec::<usize>::new());
}

#[test]
fn group_and_master_plugins() {
    let c = chains();
    let g = groups();
    assert_eq!(collect_group_plugins(&g, &c, 1), vec![0, 2]);
    assert_eq!(collect_group_plugins(&g, &c, 2), Vec::<usize>::new());
    assert_eq!(collect_group_plugins(&g, &c, 3), Vec::<usize>::new());
    assert_eq!(collect_group_plugins(&g, &c, 9), Vec::<usize>::new());
    assert_eq!(collect_master_plugins(Some(100), &c), vec![0, 2]);
    assert_eq!(collect_master_plugins(None, &c), Vec::<usize>::new());
}

#[test]
fn export_poll_outcomes() {
    match poll_export_progress(Some(Ok(())), true) {
        ExportPoll::Finished { message, kind } => {
            assert_eq!(message, "Export complete");
            assert_eq!(kind, ToastKind::Success);
        }
        other => panic!("unexpected {:?}", other),
    }
    match poll_export_progress(Some(Err("disk full".to_string())), true) {
        ExportPoll::Finished { message, kind } => {
            assert_eq!(message, "Export failed: disk full");
            assert_eq!(kind, ToastKind::Error);
        }
        other => panic!("unexpected {:?}", other),
    }
    assert!(matches!(poll_export_progress(None, true), ExportPoll::Redraw));
    assert!(matches!(poll_export_progress(None, false), ExportPoll::Idle));
}

#[test]
fn keyboard_plays_only_when_free() {
    let free = InputFocus::default();
    assert!(free.computer_midi_keyboard_guards_ok());
    let busy = InputFocus { editing_bpm: true, ..InputFocus::default() };
    assert!(!busy.computer_midi_keyboard_guards_ok());
    let busy = InputFocus { context_menu_open: true, ..InputFocus::default() };
    assert!(!busy.computer_midi_keyboard_guards_ok());
    let busy = InputFocus { editing_pitch: true, ..InputFocus::default() };
    assert!(!busy.computer_midi_keyboard_guards_ok());
}
