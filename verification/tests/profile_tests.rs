use rvet::profile::callgrind::{callgraph, push_fn_text, render, CallKey, CostLine, Writer};
use rvet::profile::{Cost, Metrics, Profile, Profiler};
use rvet::stack::{Error, Insn, Size, State};
use rvet::symbols::{Symbol, SymbolTable};

#[test]
fn cost_arithmetic() {
    let mut c = Cost::default();
    assert!(c.is_zero());
    c.tick();
    assert_eq!(c.ticks, 1);
    let mut m = Cost { ticks: u64::MAX };
    m.tick();
    assert_eq!(m.ticks, u64::MAX);
    assert_eq!((Cost { ticks: 3 } + Cost { ticks: 4 }).ticks, 7);
    assert_eq!((Cost { ticks: u64::MAX } + Cost { ticks: 4 }).ticks, u64::MAX);
    assert_eq!((Cost { ticks: 3 } - Cost { ticks: 4 }).ticks, 0);
    let mut d = Cost { ticks: 10 };
    d -= Cost { ticks: 3 };
    assert_eq!(d.ticks, 7);
    d += Cost { ticks: 5 };
    assert_eq!(d.ticks, 12);
}

#[test]
fn metrics_merge() {
    let mut a = Metrics::new();
    a.add(0x10, Cost { ticks: 2 });
    a.add(0x8, Cost { ticks: 1 });
    a.add(0x10, Cost { ticks: 3 });
    let mut b = Metrics::new();
    b.add(0x10, Cost { ticks: 1 });
    b.add(0x20, Cost { ticks: 0 });
    a.merge(&b);
    assert_eq!(a.as_map().to_vec(), vec![(0x8, 1), (0x10, 6), (0x20, 0)]);
    assert_eq!(a.total().ticks, 7);
}

fn call(size: Size) -> Insn {
    Insn { size, is_call: true, is_return: false }
}

fn regular() -> Insn {
    Insn { size: Size::Normal, is_call: false, is_return: false }
}

fn ret() -> Insn {
    Insn { size: Size::Normal, is_call: false, is_return: true }
}

#[test]
fn callgraph_of_a_small_trace() {
    // main at 0x0 calls f at 0x100 twice, from 0x4 and 0xc; f returns each time.
    let trace = [
        (0x0, regular()),
        (0x4, call(Size::Normal)),
        (0x100, regular()),
        (0x104, ret()),
        (0x8, regular()),
        (0xc, call(Size::Normal)),
        (0x100, regular()),
        (0x104, ret()),
        (0x10, regular()),
    ];
    let mut state = State::new(0);
    let mut profile = Profile::new();
    for (pc, insn) in trace {
        state.process_item(pc, &insn).unwrap();
        profile.add(state.stack(), pc, Cost { ticks: 1 });
    }
    assert_eq!(profile.len(), 3);
    let g = callgraph(&profile);
    assert_eq!(g.order.len(), 3);
    assert_eq!(g.order[0], 0);
    let main_pos = 0;
    assert_eq!(g.inclusive[main_pos], 9);
    assert_eq!(
        g.calls.entries().to_vec(),
        vec![
            (CallKey { caller: 0, origin: 0x4, callee: 0x100 }, 2),
            (CallKey { caller: 0, origin: 0xc, callee: 0x100 }, 2),
        ]
    );
    assert_eq!(g.fns.len(), 2);
    assert_eq!(g.fns[0].entry, 0);
    assert_eq!(
        g.fns[0].lines,
        vec![
            CostLine::Own { addr: 0x0, ticks: 1 },
            CostLine::Call { origin: 0x4, target: 0x100, ticks: 2 },
            CostLine::Own { addr: 0x8, ticks: 1 },
            CostLine::Call { origin: 0xc, target: 0x100, ticks: 2 },
            CostLine::Own { addr: 0x10, ticks: 1 },
        ]
    );
    assert_eq!(g.fns[1].entry, 0x100);
    assert_eq!(
        g.fns[1].lines,
        vec![CostLine::Own { addr: 0x100, ticks: 2 }, CostLine::Own { addr: 0x104, ticks: 2 }]
    );
}

#[test]
fn callgrind_fn_text() {
    let lines = vec![
        CostLine::Call { origin: 0x104, target: 0x200, ticks: 5 },
        CostLine::Own { addr: 0x104, ticks: 1 },
        CostLine::Own { addr: 0x1a8, ticks: 12 },
    ];
    let callees = vec![b"callee".to_vec(), Vec::new(), Vec::new()];
    let mut out = b"events: Ticks\n".to_vec();
    push_fn_text(&mut out, b"main", &lines, &callees);
    let text = String::from_utf8(out).unwrap();
    assert_eq!(
        text,
        "events: Ticks\n\nfn=main\ncfn=callee\ncalls=5 0x200\n0x104 5\n0x104 1\n0x1a8 12\n"
    );
}

#[test]
fn profiler_renders_callgrind() {
    // main at 0x1000 calls f at 0x1100 from 0x1004; f returns.
    let trace = [
        (0x1000, regular()),
        (0x1004, call(Size::Normal)),
        (0x1100, regular()),
        (0x1104, ret()),
        (0x1008, regular()),
    ];
    let mut profiler = Profiler::new();
    for (pc, insn) in trace {
        profiler.record(pc, &insn).unwrap();
    }
    let profile = profiler.into_profile();
    assert_eq!(profile.len(), 2);
    let tables = vec![SymbolTable::new(vec![Symbol::new("main".to_string(), 0x12, 0, 0x0, 12)], 0x1000)];
    let text = String::from_utf8(render(&callgraph(&profile), &tables)).unwrap();
    assert_eq!(
        text,
        "\nfn=main\n0x1000 1\ncfn=0x1100\ncalls=2 0x1100\n0x1004 2\n0x1008 1\n\nfn=0x1100\n0x1100 1\n0x1104 1\n"
    );
}

#[test]
fn profiler_reports_stack_errors() {
    let mut profiler = Profiler::new();
    profiler.record(0x10, &ret()).unwrap();
    assert_eq!(profiler.record(0x14, &regular()), Err(Error::NoFrame));
    assert_eq!(profiler.profile().len(), 1);
    assert_eq!(profiler.profile().metrics(0).as_map().to_vec(), vec![(0x10, 1), (0x14, 1)]);
}

#[test]
fn callgrind_writer_names_fns() {
    let mut profiler = Profiler::new();
    profiler.record(0x2000, &regular()).unwrap();
    profiler.record(0x2004, &regular()).unwrap();
    let tables = vec![SymbolTable::new(vec![Symbol::new("entry".to_string(), 0x10, 0, 0x2000, 8)], 0)];
    let text = Writer::new(tables).write_profile(profiler.profile());
    assert_eq!(
        String::from_utf8(text).unwrap(),
        "\nfn=entry\n0x2000 1\n0x2004 1\n"
    );
}

#[test]
fn callgrind_empty_profile_writes_nothing() {
    let tables: Vec<SymbolTable> = Vec::new();
    assert!(Writer::new(tables).write_profile(&Profile::new()).is_empty());
}
