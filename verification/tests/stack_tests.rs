use rvet::stack::{Error, Insn, Size, Stack, State};

fn regular(size: Size) -> Insn {
    Insn { size, is_call: false, is_return: false }
}

fn call(size: Size) -> Insn {
    Insn { size, is_call: true, is_return: false }
}

fn ret() -> Insn {
    Insn { size: Size::Compressed, is_call: false, is_return: true }
}

#[test]
fn size_bytes() {
    assert_eq!(Size::Compressed.bytes(), 2);
    assert_eq!(Size::Normal.bytes(), 4);
    assert_eq!(Size::Wide.bytes(), 6);
    assert_eq!(Size::ExtraWide.bytes(), 8);
}

#[test]
fn stack_depth_follows_calls_and_returns() {
    let mut s = Stack::default();
    assert_eq!(s.depth(), 0);
    s.process_item(0x100, &call(Size::Normal)).unwrap();
    assert!(s.at_fn_entry());
    assert_eq!(s.depth(), 0);
    s.process_item(0x200, &regular(Size::Normal)).unwrap();
    assert!(!s.at_fn_entry());
    assert_eq!(s.depth(), 1);
    assert_eq!(s.frames()[0].entry(), 0x200);
    assert_eq!(s.frames()[0].origin(), Some(0x100));
    assert_eq!(s.frames()[0].return_addr(), Some(0x104));
    s.process_item(0x204, &ret()).unwrap();
    assert_eq!(s.depth(), 1);
    s.process_item(0x104, &regular(Size::Normal)).unwrap();
    assert_eq!(s.depth(), 0);
}

#[test]
fn stack_return_without_call() {
    let mut s = Stack::new();
    s.process_item(0x10, &ret()).unwrap();
    assert_eq!(s.process_item(0x20, &regular(Size::Normal)), Err(Error::NoFrame));
    assert_eq!(s.depth(), 0);
}

#[test]
fn stack_return_to_wrong_address() {
    let mut s = Stack::new();
    s.process_item(0x100, &call(Size::Compressed)).unwrap();
    s.process_item(0x300, &regular(Size::Normal)).unwrap();
    s.process_item(0x304, &ret()).unwrap();
    assert_eq!(s.depth(), 1);
    assert_eq!(
        s.process_item(0x400, &regular(Size::Normal)),
        Err(Error::OriginMismatch { have: 0x400, expected: 0x102 })
    );
    assert_eq!(s.depth(), 0);
}

#[test]
fn stack_reset() {
    let mut s = Stack::new();
    s.process_item(0x100, &call(Size::Normal)).unwrap();
    s.process_item(0x200, &regular(Size::Normal)).unwrap();
    s.reset();
    assert_eq!(s.depth(), 0);
    assert!(!s.at_fn_entry());
}

#[test]
fn state_builds_call_chain() {
    let mut st = State::new(0x80);
    assert_eq!(st.stack().depth(), 0);
    assert_eq!(st.stack().entry(), 0x80);
    st.process_item(0x80, &call(Size::Normal)).unwrap();
    assert!(st.at_fn_entry());
    st.process_item(0x1000, &call(Size::Compressed)).unwrap();
    assert_eq!(st.stack().depth(), 1);
    st.process_item(0x2000, &regular(Size::Normal)).unwrap();
    assert_eq!(st.stack().depth(), 2);
    let frames = st.stack().iter();
    assert_eq!(frames.len(), 3);
    assert_eq!(frames[0].entry(), 0x2000);
    assert_eq!(frames[0].origin(), Some(0x1000));
    assert_eq!(frames[1].entry(), 0x1000);
    assert_eq!(frames[2].entry(), 0x80);
    assert_eq!(frames[2].origin(), None);
    assert!(st.stack().caller().unwrap().same(&frames[1]));
    st.process_item(0x2004, &ret()).unwrap();
    st.process_item(0x1002, &regular(Size::Normal)).unwrap();
    assert_eq!(st.stack().depth(), 1);
    assert_eq!(st.stack().entry(), 0x1000);
}

#[test]
fn state_return_mismatch_and_no_frame() {
    let mut st = State::new(0);
    st.process_item(0x10, &ret()).unwrap();
    assert_eq!(st.process_item(0x20, &regular(Size::Normal)), Err(Error::NoFrame));
    st.process_item(0x20, &call(Size::Normal)).unwrap();
    st.process_item(0x40, &ret()).unwrap();
    assert_eq!(
        st.process_item(0x99, &regular(Size::Normal)),
        Err(Error::OriginMismatch { have: 0x99, expected: 0x24 })
    );
    assert_eq!(st.stack().depth(), 0);
}

#[test]
fn frame_pop() {
    let mut st = State::new(0x10);
    st.process_item(0x10, &call(Size::Normal)).unwrap();
    st.process_item(0x50, &regular(Size::Normal)).unwrap();
    let mut top = st.stack().clone();
    let popped = top.pop().unwrap();
    assert_eq!(popped.entry(), 0x50);
    assert_eq!(top.entry(), 0x10);
    assert!(matches!(top.pop(), Err(Error::NoFrame)));
    assert_eq!(top.entry(), 0x10);
}

#[test]
fn state_and_stack_agree_on_trace() {
    let trace = [
        (0x0, call(Size::Normal)),
        (0x100, regular(Size::Normal)),
        (0x104, call(Size::Compressed)),
        (0x200, ret()),
        (0x106, ret()),
        (0x4, regular(Size::Normal)),
    ];
    let mut st = State::new(0);
    let mut sk = Stack::new();
    for (pc, insn) in trace.iter() {
        st.process_item(*pc, insn).unwrap();
        sk.process_item(*pc, insn).unwrap();
        assert_eq!(st.stack().depth(), sk.depth());
        assert_eq!(st.at_fn_entry(), sk.at_fn_entry());
    }
}

#[test]
fn stack_error_messages() {
    assert_eq!(
        Error::NoFrame.text(),
        b"Function return with no call site to return to".to_vec()
    );
    assert_eq!(
        Error::OriginMismatch { have: 1024, expected: 258 }.text(),
        b"Mismtach of return address: have 1024, expected 258".to_vec()
    );
}

#[test]
fn stack_resets_after_error() {
    let mut s = Stack::new();
    s.process_item_or_reset(0x100, &call(Size::Normal)).unwrap();
    s.process_item_or_reset(0x200, &ret()).unwrap();
    assert_eq!(s.depth(), 1);
    assert_eq!(
        s.process_item_or_reset(0x300, &regular(Size::Normal)),
        Err(Error::OriginMismatch { have: 0x300, expected: 0x104 })
    );
    assert_eq!(s.depth(), 0);
    assert!(!s.at_fn_entry());
    s.process_item_or_reset(0x304, &ret()).unwrap();
    assert_eq!(s.process_item_or_reset(0x308, &regular(Size::Normal)), Err(Error::NoFrame));
    assert_eq!(s.process_item_or_reset(0x30c, &regular(Size::Normal)), Ok(()));
}

#[test]
fn state_return_restores_frame() {
    let mut st = State::new(0x80);
    st.process_item(0x80, &regular(Size::Normal)).unwrap();
    st.process_item(0x84, &call(Size::Normal)).unwrap();
    let before = std::sync::Arc::clone(st.stack());
    st.process_item(0x400, &ret()).unwrap();
    assert_eq!(st.stack().depth(), 1);
    st.process_item(0x88, &regular(Size::Normal)).unwrap();
    assert!(std::sync::Arc::ptr_eq(st.stack(), &before));
    assert!(!st.at_fn_entry());
}

#[test]
fn stack_frames_are_detached() {
    let mut s = Stack::default();
    s.process_item(0x80, &call(Size::Normal)).unwrap();
    s.process_item(0x1000, &call(Size::Compressed)).unwrap();
    s.process_item(0x2000, &regular(Size::Normal)).unwrap();
    assert_eq!(s.frames().len(), 2);
    for f in s.frames() {
        let caller = f.caller().unwrap();
        assert_eq!(caller.entry(), 0);
        assert!(caller.caller().is_none());
    }
}
