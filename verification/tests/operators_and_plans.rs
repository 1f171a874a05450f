//! Operators, sinks, records, plans and the decisions around a run.
use rivus_runtime::agg::AggFunc;
use rivus_runtime::binary::{bin_layout, bin_schema, decode_bin_batch, split_records, BinChunker, BinType, Endian};
use rivus_runtime::cast::{cast_column, cast_value};
use rivus_runtime::chunk::{Chunk, Column, Field, Mode};
use rivus_runtime::concat::concat_chunks;
use rivus_runtime::describe::Describe;
use rivus_runtime::dispatch::{
    attempts, cannot_write, concat_parts, group_result, refuse_endless, route_eval_event, strategy,
    sum_workers, unbound_hole, unbounded_nodes, Attempt, Facts, Joining,
};
use rivus_runtime::engine::{
    divisible_source, is_preview, merge_results, parallel_min_bytes, parallel_min_bytes_for,
    single_file_source, uris_of_chunk, worth_threads, MemoryPref, RunOptions, RunResult,
};
use rivus_runtime::eval::{eval_acc, eval_predicate};
use rivus_runtime::event::{ErrorEvent, ErrorScope, OpCtx, Severity};
use rivus_runtime::expr::{Access, ArithOp, CmpOp, Expr, Func, PathExpr, PathSeg};
use rivus_runtime::filerun::{
    cannot_assemble, csv_target, file_group_result, file_sink_result, group_divides, part_path,
    part_sinks, quarantine, sort_texts, worth_files,
};
use rivus_runtime::fill::{Fill, FillDirectional, FillStat};
use rivus_runtime::float::F64;
use rivus_runtime::flow::{apply_error_hooks, Counts};
use rivus_runtime::flows::{eligible_group_flow, eligible_read_group_flow, eligible_read_sink_flow, pre_group_path};
use rivus_runtime::fused::{fused_shape_plan, fused_used_columns};
use rivus_runtime::gendata::bin_clean;
use rivus_runtime::group::{AggSpec, GroupBy};
use rivus_runtime::host::{Answers, Ask, HostOp};
use rivus_runtime::join::{Join, JoinKind};
use rivus_runtime::lanes::eval_column;
use rivus_runtime::parts::{assemble, malformed_rows, new_group, sample_group_input_schema, skipped_file, Segment, Worker};
use rivus_runtime::plan::{
    label_of, must_drain, pre_group_op_allowed, topo_order, Codec, FillMethod, Hook, HookAction,
    HookEvent, Node, Op, PlanGraph, Route, SinkCodec,
};
use rivus_runtime::records::{bin_range_source, SourceBinary};
use rivus_runtime::select::{Distinct, DropNa, Filter, Take};
use rivus_runtime::shape::{Cast, Drop, Project, ProjectExpr, Rename, Reorder};
use rivus_runtime::sink::{json_array, jsonl_text, SinkCsv, SinkJson};
use rivus_runtime::sort::Sort;
use rivus_runtime::stage::{stage_of, Labelled, Probe, Stage};
use rivus_runtime::tail::{file_group_events, run_tail, Level};
use rivus_runtime::validate::{plan_validate, Refusal};
use rivus_runtime::value::{DataType, Decimal, Value};
use rivus_runtime::workers::{FusedWorker, SegmentWorker};

// ------------------------------------------------------------------- host

fn fl(x: f64) -> F64 {
    F64 { bits: x.to_bits() }
}

fn float_arg(v: &Value) -> f64 {
    match v {
        Value::F64(x) => f64::from_bits(x.bits),
        other => panic!("not a double: {:?}", other),
    }
}

fn number(v: &Value) -> Option<f64> {
    match v {
        Value::I64(n) => Some(*n as f64),
        Value::F64(x) => Some(f64::from_bits(x.bits)),
        Value::Bool(b) => Some(if *b { 1.0 } else { 0.0 }),
        Value::Dec(d) => Some(d.unscaled as f64 / 10f64.powi(d.scale as i32)),
        _ => None,
    }
}

fn answer(a: &Ask) -> Value {
    match a.op {
        HostOp::Arith(op) => {
            let (x, y) = (float_arg(&a.args[0]), float_arg(&a.args[1]));
            Value::F64(fl(match op {
                ArithOp::Add => x + y,
                ArithOp::Sub => x - y,
                ArithOp::Mul => x * y,
                ArithOp::Div => x / y,
                ArithOp::Mod => x % y,
            }))
        }
        HostOp::Ceil => Value::F64(fl(float_arg(&a.args[0]).ceil())),
        HostOp::Floor => Value::F64(fl(float_arg(&a.args[0]).floor())),
        HostOp::Round => Value::F64(fl(float_arg(&a.args[0]).round())),
        HostOp::Sqrt => Value::F64(fl(float_arg(&a.args[0]).max(0.0).sqrt())),
        HostOp::DecFloat => Value::F64(fl(number(&a.args[0]).unwrap())),
        HostOp::FloatDec { scale } => Value::Dec(Decimal::new(
            (float_arg(&a.args[0]) * 10f64.powi(scale as i32)).round() as i128,
            scale,
        )),
        HostOp::ParseFloat => match &a.args[0] {
            Value::Str(t) => match t.parse::<f64>() {
                Ok(x) => Value::F64(fl(x)),
                Err(_) => Value::Null,
            },
            _ => Value::Null,
        },
        HostOp::FloatText => Value::Str(format!("{}", float_arg(&a.args[0]))),
        HostOp::Render => Value::Str(match &a.args[0] {
            Value::F64(x) => format!("{}", f64::from_bits(x.bits)),
            Value::I64(n) => format!("{}", n),
            Value::Bool(b) => format!("{}", b),
            Value::Null => String::new(),
            other => format!("{:?}", other),
        }),
        HostOp::Sums => {
            let mut m = [float_arg(&a.args[0]), float_arg(&a.args[1])];
            if let Value::List(vs) = &a.args[2] {
                for x in vs.iter().map(float_arg) {
                    m = [m[0] + x, m[1] + x * x];
                }
            }
            Value::List(m.iter().map(|x| Value::F64(fl(*x))).collect())
        }
        HostOp::Listed => match &a.args[0] {
            Value::List(vs) => Value::Str(
                vs.iter()
                    .map(|v| match v {
                        Value::Str(t) => t.clone(),
                        other => format!("{:?}", other),
                    })
                    .collect::<Vec<String>>()
                    .join("+"),
            ),
            _ => Value::Str(String::new()),
        },
        HostOp::TypeName { ty } => Value::Str(format!("{:?}", ty)),
        _ => Value::Null,
    }
}

fn asked<T>(mut f: impl FnMut(&Answers) -> Result<T, Ask>) -> T {
    let mut host = Answers::new();
    loop {
        match f(&host) {
            Ok(r) => return r,
            Err(a) => {
                let v = answer(&a);
                host.add(a, v);
            }
        }
    }
}

fn s(t: &str) -> Value {
    Value::Str(t.to_string())
}

fn texts(v: &[&str]) -> Vec<String> {
    v.iter().map(|t| t.to_string()).collect()
}

fn chunk(fields: Vec<(&str, DataType)>, columns: Vec<Vec<Value>>) -> Chunk {
    Chunk {
        len: columns.first().map_or(0, |c| c.len()),
        columns: fields
            .iter()
            .zip(columns)
            .map(|((_, ty), cells)| Column { dtype: *ty, cells })
            .collect(),
        fields: fields
            .iter()
            .map(|(n, ty)| Field::flat(n.to_string(), *ty))
            .collect(),
        id: 0,
        mode: Mode::Normal,
        source: None,
    }
}

fn people(rows: &[(&str, i64)]) -> Chunk {
    chunk(
        vec![("name", DataType::Str), ("age", DataType::I64)],
        vec![
            rows.iter().map(|r| s(r.0)).collect(),
            rows.iter().map(|r| Value::I64(r.1)).collect(),
        ],
    )
}

fn ctx() -> OpCtx {
    OpCtx::new("op".to_string(), 0)
}

fn col(c: &Chunk, i: usize) -> Vec<String> {
    (0..c.len)
        .map(|r| match c.value(r, i) {
            Value::Str(t) => t,
            Value::I64(n) => format!("{}", n),
            Value::F64(x) => format!("{}", f64::from_bits(x.bits)),
            Value::Null => "null".to_string(),
            other => format!("{:?}", other),
        })
        .collect()
}

fn names(c: &Chunk) -> Vec<String> {
    c.fields.iter().map(|f| f.name.clone()).collect()
}

fn field(name: &str) -> Box<Expr> {
    Box::new(Expr::Field { name: name.to_string(), access: Access::Fast })
}

fn lit(v: Value) -> Box<Expr> {
    Box::new(Expr::Literal(v))
}

fn age_at_least(n: i64) -> Expr {
    Expr::Compare { left: field("age"), op: CmpOp::Ge, right: lit(Value::I64(n)) }
}

// -------------------------------------------------------------- operators

#[test]
fn rows_are_selected() {
    let c = people(&[("a", 1), ("b", 5), ("a", 1), ("", 9)]);
    let kept = asked(|h| Filter::new(age_at_least(5)).process(&c, h));
    assert_eq!(col(&kept[0], 0), vec!["b", ""]);
    assert!(asked(|h| Filter::new(age_at_least(50)).process(&c, h)).is_empty());
    let full = asked(|h| DropNa { cols: texts(&["name"]) }.process(&c, h));
    assert_eq!(full[0].len, 3);
    let mut d = Distinct::new(Vec::new());
    assert_eq!(asked(|h| d.process(&c, h))[0].len, 3);
    assert!(asked(|h| d.process(&c, h)).is_empty());
    let mut t = Take { remaining: 3 };
    assert_eq!(t.process(&c)[0].len, 3);
    assert!(t.process(&c).is_empty());
}

#[test]
fn columns_are_reshaped() {
    let c = people(&[("a", 1), ("b", 5)]);
    let mut x = ctx();
    let r = Rename { pairs: vec![("age".to_string(), "years".to_string())] }.process(&c, &mut x);
    assert_eq!(names(&r), vec!["name", "years"]);
    assert!(x.errors.is_empty());
    Rename { pairs: vec![("none".to_string(), "y".to_string())] }.process(&c, &mut x);
    assert_eq!(x.errors.len(), 1);
    assert_eq!(names(&Drop { cols: texts(&["name"]) }.process(&c)), vec!["age"]);
    assert_eq!(names(&Reorder { cols: texts(&["age"]) }.process(&c)), vec!["age", "name"]);
    let p = asked(|h| Project { fields: texts(&["age", "name"]) }.process(&c, &mut ctx(), h));
    assert_eq!(names(&p), vec!["age", "name"]);
    let more = ProjectExpr {
        items: vec![(
            Expr::Arith { left: field("age"), op: ArithOp::Add, right: lit(Value::I64(1)) },
            "next".to_string(),
        )],
    };
    let out = asked(|h| more.process(&c, &mut ctx(), h));
    assert_eq!(names(&out), vec!["next"]);
    assert_eq!(col(&out, 0), vec!["2", "6"]);
}

#[test]
fn a_cast_that_fails_is_counted() {
    let c = chunk(vec![("t", DataType::Str)], vec![vec![s("7"), s("x")]]);
    let mut fails = 0u64;
    let v = asked(|h| {
        fails = 0;
        cast_value(&s("12"), DataType::I64, h, &mut fails)
    });
    assert!(v.same(&Value::I64(12)));
    assert_eq!(fails, 0);
    let column = asked(|h| {
        fails = 0;
        cast_column(c.columns[0].dup(), DataType::I64, h, &mut fails)
    });
    assert_eq!(column.dtype, DataType::I64);
    assert!(column.value_at(0).same(&Value::I64(7)));
    let mut x = ctx();
    let casts = Cast { casts: vec![("t".to_string(), DataType::F64)] };
    let out = asked(|h| casts.process(&c, &mut x, h));
    assert_eq!(out.columns[0].dtype, DataType::F64);
}

#[test]
fn blanks_are_filled() {
    let c = || {
        chunk(
            vec![("t", DataType::Str)],
            vec![vec![s(""), s("1"), s(""), s("4"), s("")]],
        )
    };
    let f = Fill { col: "t".to_string(), value: "z".to_string() }.process(&c(), &mut ctx());
    assert_eq!(col(&f, 0), vec!["z", "1", "z", "4", "z"]);
    let mut ff = FillDirectional::ffill("t".to_string());
    let mut out = ff.process(c(), &mut ctx());
    out.extend(ff.finish(&mut ctx()));
    assert_eq!(col(&out[0], 0), vec!["", "1", "1", "4", "4"]);
    let mut bf = FillDirectional::bfill("t".to_string());
    let mut out = bf.process(c(), &mut ctx());
    out.extend(bf.finish(&mut ctx()));
    assert_eq!(col(&out[0], 0), vec!["1", "1", "4", "4", ""]);
    let mut m = FillStat::new("t".to_string(), false);
    m.process(c());
    let out = asked(|h| m.finish(&mut ctx(), h));
    assert_eq!(col(&out[0], 0), vec!["2.5", "1", "2.5", "4", "2.5"]);
}

#[test]
fn rows_are_sorted_stably() {
    let mut st = Sort::new(vec![("age".to_string(), true)]);
    let c = people(&[("a", 1), ("b", 5), ("c", 1), ("d", 9)]);
    assert!(st.accepts(&c));
    st.process(c);
    let out = st.finish(&mut ctx());
    let ages: Vec<String> = out.iter().flat_map(|c| col(c, 1)).collect();
    let down = vec!["9", "5", "1", "1"];
    let up = vec!["1", "1", "5", "9"];
    assert!(ages == down || ages == up);
    let who: Vec<String> = out.iter().flat_map(|c| col(c, 0)).collect();
    let at = |n: &str| who.iter().position(|x| x == n).unwrap();
    assert!(at("a") < at("c"));
}

#[test]
fn two_inputs_are_joined() {
    let left = people(&[("a", 1), ("b", 2)]);
    let right = chunk(
        vec![("name", DataType::Str), ("city", DataType::Str)],
        vec![vec![s("b"), s("c")], vec![s("X"), s("Y")]],
    );
    for (kind, rows) in [
        (JoinKind::Inner, 1),
        (JoinKind::Left, 2),
        (JoinKind::Right, 2),
        (JoinKind::Full, 3),
    ] {
        let mut j = Join::new(texts(&["name"]), texts(&["name"]), kind, 0);
        j.process(0, left.dup());
        j.process(1, right.dup());
        let out = asked(|h| j.finish(&mut ctx(), h)).unwrap();
        assert_eq!(out.len, rows);
        assert_eq!(names(&out), vec!["name", "age", "city"]);
    }
}

#[test]
fn columns_are_described() {
    let mut d = Describe::new();
    d.process(&people(&[("a", 1), ("b", 5)]));
    let out = asked(|h| d.finish(&mut ctx(), h)).unwrap();
    assert_eq!(out.len, 2);
    assert_eq!(col(&out, 0), vec!["name", "age"]);
    let all: Vec<String> = (0..out.fields.len()).flat_map(|i| col(&out, i)).collect();
    assert!(all.contains(&"3".to_string()));
}

#[test]
fn expressions_are_evaluated() {
    let c = people(&[("ann", 4), ("bob", 6)]);
    let e = Expr::Func { func: Func::Upper, args: vec![*field("name")] };
    let mut fails = 0u64;
    let v = asked(|h| eval_acc(&e, &c, 1, h, &mut fails));
    assert!(v.same(&s("BOB")));
    let column = asked(|h| eval_column(&e, &c, h, &mut fails));
    assert!(column.value_at(0).same(&s("ANN")));
    let both = Expr::And(
        Box::new(age_at_least(5)),
        Box::new(Expr::Compare { left: field("name"), op: CmpOp::Ne, right: lit(s("ann")) }),
    );
    assert!(!asked(|h| eval_predicate(&both, &c, 0, h)));
    assert!(asked(|h| eval_predicate(&both, &c, 1, h)));
    let nested = chunk(
        vec![("m", DataType::Struct)],
        vec![vec![Value::Struct(vec![(
            "xs".to_string(),
            Value::List(vec![Value::I64(7), Value::I64(8)]),
        )])]],
    );
    let path = Expr::Path(PathExpr {
        root: "m".to_string(),
        segs: vec![PathSeg::Field("xs".to_string()), PathSeg::Index(1)],
    });
    assert!(asked(|h| eval_acc(&path, &nested, 0, h, &mut fails)).same(&Value::I64(8)));
}

// ------------------------------------------------------------------ sinks

#[test]
fn rows_are_written() {
    let c = chunk(
        vec![("t", DataType::Str), ("n", DataType::I64)],
        vec![vec![s("a,b"), s("q\"")], vec![Value::I64(1), Value::Null]],
    );
    let mut csv = SinkCsv::new(',');
    let text = asked(|h| csv.chunk_text(&c, h));
    assert_eq!(text.lines().next(), Some("t,n"));
    assert!(text.contains("\"a,b\",1\n"));
    assert!(text.contains("\"q\"\"\""));
    csv.wrote(true);
    assert!(!asked(|h| csv.chunk_text(&c, h)).starts_with("t,n"));
    let lines = asked(|h| jsonl_text(&c, h));
    assert_eq!(lines, "{\"t\":\"a,b\",\"n\":1}\n{\"t\":\"q\\\"\",\"n\":null}\n");
    let sink = SinkJson::new();
    let body = asked(|h| sink.chunk_text(&c, h));
    assert!(body.starts_with('['));
    let whole = asked(|h| json_array(&vec![c.dup()], h));
    assert!(whole.trim_end().ends_with(']'));
}

#[test]
fn segments_make_the_serial_file() {
    let a = people(&[("x", 1)]);
    let b = people(&[("y", 2), ("z", 3)]);
    let mut one = Segment::new();
    asked(|h| one.put(&a, ',', h));
    let mut two = Segment::new();
    asked(|h| two.put(&b, ',', h));
    assert_eq!(two.rows, 2);
    assert_eq!(assemble(&vec![one, two]), "name,age\nx,1\ny,2\nz,3\n");
    assert_eq!(assemble(&vec![]), "");
    let parts = vec![b"h\n1\n".to_vec(), Vec::new(), b"h\n2\n".to_vec()];
    assert_eq!(concat_parts(&parts, true), b"h\n1\n2\n".to_vec());
    assert_eq!(concat_parts(&parts, false), b"h\n1\nh\n2\n".to_vec());
}

// ---------------------------------------------------------------- records

#[test]
fn records_are_laid_out_and_read() {
    let fields = vec![
        ("a".to_string(), BinType::U8),
        ("b".to_string(), BinType::I32),
        ("c".to_string(), BinType::I16),
    ];
    assert_eq!(bin_layout(&fields, false), Some((vec![0, 1, 5], 7)));
    assert_eq!(bin_layout(&fields, true), Some((vec![0, 4, 8], 12)));
    assert_eq!(bin_schema(&fields)[1].dtype, DataType::I64);
    let buf: Vec<u8> = vec![255, 0xfe, 0xff, 0xff, 0xff, 1, 0];
    let cols = asked(|h| decode_bin_batch(&buf, &fields, &vec![0, 1, 5], 7, Endian::Little, 1, h));
    assert!(cols[0].value_at(0).same(&Value::I64(255)));
    assert!(cols[1].value_at(0).same(&Value::I64(-2)));
    assert!(cols[2].value_at(0).same(&Value::I64(1)));
    let big = asked(|h| decode_bin_batch(&buf, &fields, &vec![0, 1, 5], 7, Endian::Big, 1, h));
    assert!(big[2].value_at(0).same(&Value::I64(256)));
}

#[test]
fn records_are_pulled_in_batches() {
    let mut c = BinChunker::open(23, 7, 2);
    assert_eq!(c.trailing, 2);
    let mut sizes = Vec::new();
    while let Some((take, bytes)) = c.next_batch() {
        sizes.push((take, bytes));
        c.took(take, true);
    }
    assert_eq!(sizes, vec![(2, 14), (1, 7)]);
    let ranges = split_records(70, 7, 4).unwrap();
    assert_eq!(ranges.first().unwrap().0, 0);
    assert_eq!(ranges.last().unwrap().1, 70);
    assert!(ranges.windows(2).all(|w| w[0].1 == w[1].0));
    assert!(bin_clean(2, 1) == bin_clean(2, 1));
}

#[test]
fn a_source_makes_chunks_of_records() {
    let layout = || vec![("a".to_string(), BinType::U8), ("b".to_string(), BinType::I16)];
    let mut c = ctx();
    let mut src = SourceBinary::open(layout(), 8, Endian::Little, false, 1, &mut c).unwrap();
    assert_eq!(c.errors.len(), 1);
    assert_eq!(c.errors[0].message, "2 trailing byte(s) ignored (partial record)");
    assert_eq!(src.wants(), Some(3));
    let first = asked(|h| src.pull(&Some(vec![7, 1, 0]), &mut c, h)).unwrap();
    assert_eq!((col(&first, 0), col(&first, 1)), (vec!["7".to_string()], vec!["1".to_string()]));
    let second = asked(|h| src.pull(&Some(vec![9, 0xff, 0xff]), &mut c, h)).unwrap();
    assert_eq!(col(&second, 1), vec!["-1".to_string()]);
    assert_eq!(second.id, first.id + 1);
    assert_eq!(src.wants(), None);
    assert!(asked(|h| src.pull(&None, &mut c, h)).is_none());
    let none = SourceBinary::open(Vec::new(), 8, Endian::Little, false, 1, &mut c);
    assert_eq!(none.err(), Some("empty binary layout".to_string()));

    let mut part = bin_range_source(layout(), vec![0, 1], 3, Endian::Little, 2, 5);
    assert_eq!(part.wants(), Some(6));
    let both = asked(|h| part.pull(&Some(vec![1, 2, 0, 3, 4, 0]), &mut c, h)).unwrap();
    assert_eq!(both.len, 2);
    let mut torn = bin_range_source(layout(), vec![0, 1], 3, Endian::Little, 2, 1);
    assert!(asked(|h| torn.pull(&None, &mut c, h)).is_none());
    assert_eq!(torn.wants(), None);
}

// ------------------------------------------------------------------ plans

fn node(id: usize, op: Op, kind: &str) -> Node {
    Node {
        id,
        label: None,
        op,
        kind: kind.to_string(),
        line: kind.to_string(),
        hooks: Vec::new(),
    }
}

fn source(path: &str, unbounded: bool) -> Op {
    Op::Source { path: path.to_string(), unbounded, codec: Codec::Csv }
}

fn key(name: &str) -> PathExpr {
    PathExpr { root: name.to_string(), segs: Vec::new() }
}

fn group() -> Op {
    Op::GroupBy {
        keys: vec![key("name")],
        aggs: vec![AggSpec { func: AggFunc::Max, col: "age".to_string(), label: "max".to_string() }],
    }
}

fn sink(path: &str) -> Op {
    Op::Sink { route: Route::Fixed(path.to_string()), codec: SinkCodec::Csv { delim: ',' } }
}

fn chain(ops: Vec<(Op, &str)>) -> PlanGraph {
    let n = ops.len();
    PlanGraph {
        nodes: ops
            .into_iter()
            .enumerate()
            .map(|(i, (op, kind))| node(i, op, kind))
            .collect(),
        edges: (1..n).map(|i| (i - 1, i)).collect(),
    }
}

#[test]
fn plans_are_ordered_and_cycles_found() {
    let mut g = chain(vec![
        (source("a.csv", false), "open"),
        (Op::Filter { pred: age_at_least(1) }, "filter"),
        (sink("o.csv"), "save"),
    ]);
    assert_eq!(topo_order(&g), Some(vec![0, 1, 2]));
    assert!(must_drain(&g));
    assert_eq!(single_file_source(&g), Some(0));
    assert_eq!(divisible_source(&g), Some(0));
    assert!(!is_preview(&g, &RunOptions::default()));
    g.edges.push((2, 0));
    assert_eq!(topo_order(&g), None);
    assert_eq!(g.outputs_of(2), vec![0]);
    assert_eq!(g.inputs_of(1), vec![0]);
    assert!(!label_of(&g, 1).is_empty());
    assert!(pre_group_op_allowed(&Op::Filter { pred: age_at_least(1) }));
    assert!(!pre_group_op_allowed(&Op::Sort { keys: Vec::new() }));
}

#[test]
fn flows_that_can_be_divided_are_found() {
    let g = chain(vec![
        (source("d", false), "ls"),
        (Op::Read, "read"),
        (Op::Filter { pred: age_at_least(1) }, "filter"),
        (group(), "group"),
    ]);
    let shape = eligible_read_group_flow(&g).unwrap();
    assert_eq!((shape.source, shape.read, shape.group), (0, 1, 3));
    assert_eq!(shape.path.len(), 1);
    assert!(eligible_read_sink_flow(&g).is_none());
    let mut used = fused_used_columns(&g, &shape).unwrap();
    used.sort();
    assert_eq!(used, texts(&["age", "name"]));
    assert!(fused_shape_plan(&g, &shape).is_none());
    let h = chain(vec![
        (source("a.csv", false), "open"),
        (Op::Filter { pred: age_at_least(1) }, "filter"),
        (group(), "group"),
        (sink("o.csv"), "save"),
    ]);
    assert_eq!(eligible_group_flow(&h), Some((0, 2, Some(3))));
    assert_eq!(pre_group_path(&h, 0, 2), vec![1]);
    let e = chain(vec![
        (source("d", false), "ls"),
        (Op::Read, "read"),
        (sink("o.csv"), "save"),
    ]);
    assert!(eligible_read_sink_flow(&e).is_some());
}

#[test]
fn mistaken_plans_are_refused() {
    let empty = PlanGraph { nodes: Vec::new(), edges: Vec::new() };
    match plan_validate(&empty, &Vec::new()) {
        Err(Refusal::Empty) => {}
        other => panic!("not refused: {:?}", other),
    }
    let g = chain(vec![
        (source("a.csv", false), "open"),
        (Op::Filter { pred: age_at_least(1) }, "filter"),
    ]);
    let known = vec![Some(vec![Field::flat("name".to_string(), DataType::Str)]), None];
    match plan_validate(&g, &known) {
        Err(r) => assert!(r.message(false, &Some("name".to_string())).contains("age")),
        Ok(_) => panic!("not refused"),
    }
    let fine = vec![
        Some(vec![
            Field::flat("name".to_string(), DataType::Str),
            Field::flat("age".to_string(), DataType::I64),
        ]),
        None,
    ];
    assert!(plan_validate(&g, &fine).is_ok());
}

#[test]
fn endless_flows_are_refused() {
    let g = chain(vec![
        (source("tcp", true), "subscribe"),
        (Op::Filter { pred: age_at_least(1) }, "filter"),
        (group(), "group"),
    ]);
    let order = topo_order(&g).unwrap();
    let tag = unbounded_nodes(&g, &order);
    assert_eq!(tag, vec![true, true, true]);
    let m = refuse_endless(&g, &tag, &vec![false, false, true]).unwrap();
    assert!(m.starts_with("`group` needs the whole stream"));
    assert!(refuse_endless(&g, &tag, &vec![false; 3]).is_none());
    let b = chain(vec![(source("a", false), "open"), (group(), "group")]);
    assert_eq!(unbounded_nodes(&b, &topo_order(&b).unwrap()), vec![false, false]);
}

#[test]
fn ways_of_running_are_tried_in_order() {
    let f = Facts {
        read_group: false,
        read_sink: true,
        parallel: true,
        group: true,
        whole_group: false,
        preview: false,
        file_source: true,
    };
    assert_eq!(
        attempts(&f),
        vec![Attempt::ReadSink, Attempt::Group, Attempt::Ranges, Attempt::Serial]
    );
    assert_eq!(strategy(Attempt::Group, &f, "n").as_deref(), Some("n; parallel group-by"));
    assert_eq!(
        strategy(Attempt::Serial, &f, "n").as_deref(),
        Some("n; not partitionable \u{2192} serial")
    );
    assert_eq!(
        strategy(Attempt::ReadSink, &f, "n").as_deref(),
        Some("parallel read sink (per-file segments)")
    );
    assert_eq!(parallel_min_bytes(Some(5)), 5);
    assert!(parallel_min_bytes_for(MemoryPref::Auto, 100) >= parallel_min_bytes_for(MemoryPref::Unbounded, 100));
    assert!(worth_threads(8, 4));
    assert!(!worth_threads(7, 4));
}

#[test]
fn events_say_what_was_lost() {
    assert!(unbound_hole("x").message.starts_with("value hole $x is unbound"));
    assert_eq!(
        route_eval_event(2, "P", "s".to_string()).message,
        "save route: 2 value(s) could not be evaluated in a computed placeholder; routed to the P partition"
    );
    assert_eq!(cannot_write("p", "full", "s".to_string()).message, "cannot write 'p': full");
    assert_eq!(cannot_write("p", "full", "s".to_string()).severity, Severity::Critical);
    assert_eq!(
        malformed_rows("u", 3, "n").message,
        "read 'u': 3 malformed row(s) skipped"
    );
    assert_eq!(skipped_file("u", "gone", "n").message, "read: skipped 'u': gone");
}

#[test]
fn hooks_change_the_mode_and_log() {
    let mut g = chain(vec![(source("a", false), "open")]);
    g.nodes[0].hooks.push(Hook {
        event: HookEvent::Error,
        event_name: "error".to_string(),
        min_severity: None,
        action: HookAction::Transition(Mode::Degraded),
    });
    let e = ErrorEvent::new(Severity::Recoverable, ErrorScope::Item, "m".to_string())
        .at_node(label_of(&g, 0));
    let (mode, _) = apply_error_hooks(&g, &vec![e], Mode::Normal);
    assert_eq!(mode, Mode::Degraded);
}

// ---------------------------------------------------------------- workers

fn worker() -> Worker {
    let path = vec![Labelled {
        label: "f".to_string(),
        stage: Stage::Filter(Filter::new(age_at_least(2))),
    }];
    Worker::new(path, "g".to_string(), new_group(&group()).unwrap())
}

#[test]
fn workers_add_up_to_one_pass() {
    let a = people(&[("x", 1), ("x", 5), ("y", 3)]);
    let b = people(&[("y", 9), ("z", 2)]);
    let mut one = worker();
    asked(|h| one.feed(a.dup(), h));
    let mut two = worker();
    asked(|h| two.feed(b.dup(), h));
    assert_eq!((one.rows, two.rows), (2, 2));
    let mut all = Joining { worker: one, done: 0 };
    let later = vec![two];
    asked(|h| all.join_all(&later, h));
    let mut c = ctx();
    let out = asked(|h| all.worker.group.finish(&mut c, h)).unwrap();
    assert_eq!(col(&out, 0), vec!["x", "y", "z"]);
    assert_eq!(col(&out, 1), vec!["1", "2", "1"]);
    assert_eq!(col(&out, 2), vec!["5", "9", "2"]);
    let mut serial = worker();
    asked(|h| serial.feed(a.dup(), h));
    asked(|h| serial.feed(b.dup(), h));
    let s1 = asked(|h| serial.group.finish(&mut ctx(), h)).unwrap();
    assert_eq!(col(&s1, 2), col(&out, 2));

    let g = chain(vec![(source("a", false), "open"), (group(), "group"), (sink("o"), "save")]);
    let r = group_result(&g, 0, 1, Some(2), 4, Vec::new(), vec![out.dup()], &vec![2, 2]);
    assert_eq!(r.counts[0].rows_out, 4);
    assert_eq!(r.counts[1].rows_in, 4);
    assert_eq!(r.counts[1].rows_out, 3);
    assert_eq!(r.counts[2].rows_in, 3);
    assert!(r.outputs.is_empty());
    assert_eq!(r.workers.len(), 2);
    assert_eq!(r.final_mode, Mode::Normal);
    let fatal = ErrorEvent::new(Severity::Fatal, ErrorScope::Graph, "m".to_string());
    let halted = group_result(&g, 0, 1, None, 4, vec![fatal], vec![out], &vec![4]);
    assert_eq!(halted.final_mode, Mode::Halted);
    assert_eq!(halted.total_rows_out(), 3);
    assert_eq!(sum_workers(&vec![1, 2, 3, 4, 5, 6], 2, 3, 1), 7);
}

#[test]
fn a_sample_shows_the_schema_of_a_group() {
    let w = worker();
    let chunks = vec![people(&[("x", 1)]), people(&[("y", 3)])];
    let f = asked(|h| sample_group_input_schema(&w.path, &chunks, h)).unwrap();
    assert_eq!(f[1].name, "age");
    let none = asked(|h| sample_group_input_schema(&w.path, &vec![people(&[("x", 1)])], h));
    assert!(none.is_none());
    assert!(new_group(&Op::Merge).is_none());
    assert!(stage_of(Op::Merge).is_none());
    assert!(stage_of(Op::Fill { col: "t".to_string(), method: FillMethod::Value("z".to_string()) }).is_some());
    let mut g = GroupBy::new(texts(&["none"]), Vec::new());
    let mut c = ctx();
    asked(|h| g.process(&people(&[("x", 1)]), &mut c, h));
    assert_eq!(c.errors.len(), 1);
}

#[test]
fn results_of_parts_become_one() {
    let g = chain(vec![(source("a", false), "open"), (Op::Merge, "merge")]);
    let part = |rows: u64, mode: Mode| {
        let mut c = Counts::zero();
        c.rows_out = rows;
        RunResult {
            counts: vec![c, Counts::zero()],
            errors: Vec::new(),
            final_mode: mode,
            outputs: Vec::new(),
            workers: Vec::new(),
            first_row: Some(rows),
            strategy: None,
        }
    };
    let t = merge_results(&g, vec![part(2, Mode::Normal), part(3, Mode::Degraded)], Vec::new(), false);
    assert_eq!(t.counts[0].rows_out, 5);
    assert_eq!(t.mode, Mode::Degraded);
    assert_eq!(t.first_row, Some(2));
    let all = concat_chunks(&vec![people(&[("a", 1)]), people(&[("b", 2)])]).unwrap();
    assert_eq!(col(&all, 0), vec!["a", "b"]);
    assert!(concat_chunks(&Vec::new()).is_none());
    let uris = chunk(
        vec![("r", DataType::Resource)],
        vec![vec![Value::Resource("u1".to_string()), Value::Null]],
    );
    let mut out = Vec::new();
    uris_of_chunk(&uris, &mut out);
    assert_eq!(out, vec!["u1"]);
}

// ------------------------------------------------------------------ files

#[test]
fn files_are_ordered_and_those_that_fail_left_out() {
    assert_eq!(sort_texts(&texts(&["b", "a", "c", "a"])), texts(&["a", "a", "b", "c"]));
    let causes = vec![None, Some("gone".to_string()), None];
    let (open, skipped) = quarantine(&texts(&["x", "y", "z"]), &causes, "r");
    assert_eq!(open, vec![0, 2]);
    assert_eq!(skipped[0].message, "read: skipped 'y': gone");
    assert!(worth_files(2, false, false, 1, false, 10, 10));
    assert!(!worth_files(2, false, false, 1, false, 9, 10));
    assert!(!worth_files(1, false, false, 1, false, 10, 10));
    let fields = people(&[]).fields;
    assert!(group_divides(&group(), &fields));
    let sum = Op::GroupBy {
        keys: vec![key("name")],
        aggs: vec![AggSpec { func: AggFunc::Sum, col: "age".to_string(), label: "sum".to_string() }],
    };
    assert!(!group_divides(&sum, &fields));
}

#[test]
fn runs_over_files_have_results() {
    let g = chain(vec![
        (source("d", false), "ls"),
        (Op::Read, "read"),
        (group(), "group"),
    ]);
    let shape = eligible_read_group_flow(&g).unwrap();
    let out = vec![people(&[("x", 1)])];
    let r = file_group_result(&g, &shape, 7, 1, Vec::new(), Some(out), &vec![3, 4]);
    assert_eq!(r.counts[1].rows_out, 7);
    assert_eq!((r.counts[2].rows_in, r.counts[2].rows_out), (7, 1));
    assert_eq!(r.outputs[0].node_id, 2);
    assert_eq!(r.workers[1].rows_out, 4);
    assert_eq!(r.strategy.as_deref(), Some("parallel read group-by (per-file workers)"));
    let h = chain(vec![
        (source("d", false), "ls"),
        (Op::Read, "read"),
        (sink("o.csv"), "save"),
    ]);
    let r = file_sink_result(&h, 1, 2, 5, Vec::new());
    assert_eq!((r.counts[1].rows_out, r.counts[2].rows_in), (5, 5));
    assert_eq!(csv_target(&h.nodes[2].op), Some(("o.csv".to_string(), ',')));
    assert_eq!(csv_target(&sink("-")), None);
    let sinks = part_sinks(&h);
    assert_eq!((sinks[0].node, sinks[0].headers), (2, true));
    assert_eq!(part_path("o.csv", 12), "o.csv.rivpart12");
    assert_eq!(cannot_assemble("o", "full").message, "cannot assemble 'o': full");
}

#[test]
fn a_segment_worker_writes_what_passes() {
    let path = vec![Labelled {
        label: "f".to_string(),
        stage: Stage::Filter(Filter::new(age_at_least(2))),
    }];
    let mut w = SegmentWorker::new(path);
    asked(|h| w.feed(people(&[("x", 1), ("y", 2)]), ',', h));
    asked(|h| w.feed(people(&[("z", 1)]), ',', h));
    w.report(malformed_rows("u", 1, "r"));
    assert_eq!(w.segment.header.as_deref(), Some("name,age\n"));
    assert_eq!(w.segment.body, "y,2\n");
    assert_eq!(w.segment.rows, 1);
    assert_eq!(w.events.len(), 1);
}

#[test]
fn a_fused_worker_groups_what_the_join_gives() {
    let mut g = PlanGraph {
        nodes: vec![
            node(0, source("d", false), "ls"),
            node(1, Op::Read, "read"),
            node(2, source("r.csv", false), "open"),
            node(
                3,
                Op::Join {
                    left_keys: vec![key("name")],
                    right_keys: vec![key("name")],
                    kind: JoinKind::Inner,
                },
                "join",
            ),
            node(4, group(), "group"),
        ],
        edges: vec![(0, 1), (1, 3), (2, 3), (3, 4)],
    };
    let right = chunk(
        vec![("name", DataType::Str), ("city", DataType::Str)],
        vec![vec![s("x"), s("y")], vec![s("C"), s("D")]],
    );
    let left = people(&[("x", 1), ("z", 9), ("x", 5)]);
    let shape = eligible_read_group_flow(&g).unwrap();
    let plan = fused_shape_plan(&g, &shape).unwrap();
    let mut w = FusedWorker {
        prefix: Vec::new(),
        rest: Worker::new(Vec::new(), "g".to_string(), new_group(&g.nodes[4].op).unwrap()),
    };
    asked(|h| w.feed(&g, &plan, 4, &right, &vec![0], left.dup(), h));
    assert_eq!(w.rest.rows, 2);
    let out = asked(|h| w.rest.group.finish(&mut ctx(), h)).unwrap();
    assert_eq!(col(&out, 0), vec!["x"]);
    assert_eq!(col(&out, 1), vec!["2"]);
    assert_eq!(col(&out, 2), vec!["5"]);
    g.edges.clear();
    assert!(eligible_read_group_flow(&g).is_none());
}

#[test]
fn segments_made_apart_are_the_file_of_one_worker() {
    let path = || {
        vec![Labelled {
            label: "f".to_string(),
            stage: Stage::Filter(Filter::new(age_at_least(2))),
        }]
    };
    let parts = [
        vec![people(&[("x", 1)])],
        vec![people(&[("y", 2), ("z", 1)]), people(&[("u", 5)])],
        vec![people(&[("v,w", 3)])],
    ];
    let mut one = SegmentWorker::new(path());
    let mut apart = Vec::new();
    for part in &parts {
        let mut w = SegmentWorker::new(path());
        for c in part {
            asked(|h| w.feed(c.dup(), ',', h));
            asked(|h| one.feed(c.dup(), ',', h));
        }
        apart.push(w.segment);
    }
    let text = assemble(&apart);
    assert_eq!(text, "name,age\ny,2\nu,5\n\"v,w\",3\n");
    assert_eq!(text, assemble(&vec![one.segment]));
}

// ------------------------------------------------------------ one and the same

fn left_join_graph(items: Option<Op>) -> PlanGraph {
    let mut nodes = vec![
        node(0, source("d", false), "ls"),
        node(1, Op::Read, "read"),
        node(2, source("r.csv", false), "open"),
        node(
            3,
            Op::Join {
                left_keys: vec![key("name")],
                right_keys: vec![key("name")],
                kind: JoinKind::Left,
            },
            "join",
        ),
        node(4, Op::Filter { pred: age_at_least(2) }, "filter"),
    ];
    let mut edges = vec![(0, 1), (1, 3), (2, 3), (3, 4)];
    if let Some(op) = items {
        edges.push((4, 5));
        nodes.push(node(5, op, "project"));
    }
    let last = nodes.len();
    edges.push((last - 1, last));
    nodes.push(node(
        last,
        Op::GroupBy {
            keys: vec![key("city")],
            aggs: vec![AggSpec { func: AggFunc::Max, col: "n".to_string(), label: "max".to_string() }],
        },
        "group",
    ));
    PlanGraph { nodes, edges }
}

fn cities() -> Chunk {
    chunk(
        vec![("name", DataType::Str), ("city", DataType::Str), ("n", DataType::I64)],
        vec![
            vec![s("x"), s("y"), s("x")],
            vec![s("C"), s("D"), Value::Null],
            vec![Value::I64(4), Value::I64(5), Value::I64(6)],
        ],
    )
}

fn generic_tail(g: &PlanGraph) -> Vec<Labelled> {
    let mut path = vec![Labelled {
        label: "join".to_string(),
        stage: Stage::Broadcast(Probe {
            left_keys: texts(&["name"]),
            kind: JoinKind::Left,
            right: cities(),
            rk: vec![0],
        }),
    }];
    for n in &g.nodes[4..g.nodes.len() - 1] {
        let op = match &n.op {
            Op::ProjectExpr { .. } => Stage::ProjectExpr(ProjectExpr { items: projected() }),
            _ => Stage::Filter(Filter::new(age_at_least(2))),
        };
        path.push(Labelled { label: "s".to_string(), stage: op });
    }
    path
}

fn projected() -> Vec<(Expr, String)> {
    vec![
        (
            Expr::Func { func: Func::Coalesce, args: vec![*field("city"), *lit(s("none"))] },
            "city".to_string(),
        ),
        (*field("n"), "n".to_string()),
    ]
}

#[test]
fn the_fused_pass_gives_the_groups_of_the_steps() {
    let project = Op::ProjectExpr { items: projected(), views: Vec::new() };
    for (g, who, counts) in [
        (left_join_graph(None), vec!["", "C", "D"], vec!["3", "1", "1"]),
        (left_join_graph(Some(project)), vec!["", "C", "D", "none"], vec!["2", "1", "1", "1"]),
    ] {
        let last = g.nodes.len() - 1;
        let shape = eligible_read_group_flow(&g).unwrap();
        let plan = fused_shape_plan(&g, &shape).unwrap();
        let left = people(&[("x", 1), ("z", 9), ("x", 5), ("y", 2), ("q", 3)]);
        let mut fused = FusedWorker {
            prefix: Vec::new(),
            rest: Worker::new(
                generic_tail(&g),
                "g".to_string(),
                new_group(&g.nodes[last].op).unwrap(),
            ),
        };
        asked(|h| fused.feed(&g, &plan, last, &cities(), &vec![0], left.dup(), h));
        let mut steps = Worker::new(
            generic_tail(&g),
            "g".to_string(),
            new_group(&g.nodes[last].op).unwrap(),
        );
        asked(|h| steps.feed(left.dup(), h));
        assert_eq!((fused.rest.rows, steps.rows), (5, 5));
        let a = asked(|h| fused.rest.group.finish(&mut ctx(), h)).unwrap();
        let b = asked(|h| steps.group.finish(&mut ctx(), h)).unwrap();
        for i in 0..a.fields.len() {
            assert_eq!(col(&a, i), col(&b, i));
        }
        assert_eq!(col(&a, 0), who);
        assert_eq!(col(&a, 1), counts);
    }
}

#[test]
fn a_right_key_takes_the_type_of_the_left_where_it_can() {
    let left = chunk(vec![("k", DataType::I64)], vec![vec![Value::I64(1)]]);
    let right = |keys: &[&str]| {
        chunk(vec![("k", DataType::Str)], vec![keys.iter().map(|k| s(k)).collect()])
    };
    for (keys, ty, want) in [
        (vec!["1", "7"], DataType::I64, vec!["1", "7"]),
        (vec!["x"], DataType::Str, vec!["1", "x"]),
        (vec!["007"], DataType::Str, vec!["1", "007"]),
    ] {
        let mut j = Join::new(texts(&["k"]), texts(&["k"]), JoinKind::Full, 0);
        j.process(0, left.dup());
        j.process(1, right(&keys));
        let out = asked(|h| j.finish(&mut ctx(), h)).unwrap();
        assert_eq!(out.columns[0].dtype, ty);
        assert_eq!(out.fields[0].dtype, ty);
        assert_eq!(col(&out, 0), want);
    }
}

#[test]
fn the_tail_of_a_group_is_sorted_and_its_events_are_in_order() {
    let e = |m: &str| ErrorEvent::new(Severity::Warn, ErrorScope::Chunk, m.to_string());
    let all = file_group_events(vec![e("a")], vec![e("b"), e("c")], vec![e("d")]);
    let said: Vec<&str> = all.iter().map(|x| x.message.as_str()).collect();
    assert_eq!(said, vec!["a", "b", "c", "d"]);
    let g = chain(vec![
        (group(), "group"),
        (Op::Sort { keys: vec![(key("age"), false), (key("none"), false)] }, "sort"),
        (sink("o.csv"), "save"),
    ]);
    let start = Level {
        level: vec![people(&[("a", 5), ("b", 1)]), people(&[]), people(&[("c", 3)])],
        errors: all,
        next: 4,
    };
    let (end, to) = run_tail(&g, &vec![1, 2], start);
    assert_eq!(to, Some(2));
    assert_eq!(end.level.len(), 1);
    assert_eq!(col(&end.level[0], 1), vec!["1", "3", "5"]);
    assert_eq!((end.level[0].id, end.next), (4, 5));
    assert_eq!(end.errors.len(), 5);
    assert_eq!(end.errors[4].message, "sort: unknown key 'none' (ignored)");
    let (same, none) = run_tail(&g, &Vec::new(), end);
    assert_eq!((same.level.len(), none), (1, None));
}

#[test]
fn parts_written_apart_are_the_bytes_of_one_file() {
    let path = || {
        vec![Labelled {
            label: "f".to_string(),
            stage: Stage::Filter(Filter::new(age_at_least(2))),
        }]
    };
    let parts = [
        vec![people(&[("x", 1)])],
        vec![people(&[("\u{e9}", 2), ("z", 1)]), people(&[("u", 5)])],
        vec![people(&[("two\nlines", 3)])],
    ];
    let text = |w: SegmentWorker| {
        let mut t = w.segment.header.unwrap_or_default();
        t.push_str(&w.segment.body);
        t.into_bytes()
    };
    let mut one = SegmentWorker::new(path());
    let mut files = Vec::new();
    for part in &parts {
        let mut w = SegmentWorker::new(path());
        for c in part {
            asked(|h| w.feed(c.dup(), ',', h));
            asked(|h| one.feed(c.dup(), ',', h));
        }
        files.push(text(w));
    }
    assert!(files[0].is_empty());
    assert_eq!(concat_parts(&files, true), text(one));
}

#[test]
fn a_separator_is_sought_among_the_bytes_of_a_text() {
    let line = |sep: char, t: &str| {
        let c = chunk(vec![("t", DataType::Str)], vec![vec![s(t)]]);
        let text = asked(|h| SinkCsv::new(sep).chunk_text(&c, h));
        text.lines().nth(1).map(|l| l.to_string())
    };
    assert_eq!(line(',', "a,b").as_deref(), Some("\"a,b\""));
    assert_eq!(line(';', "a,b").as_deref(), Some("a,b"));
    assert_eq!(line('\u{b8}', "\u{4e2d}").as_deref(), Some("\"\u{4e2d}\""));
    assert_eq!(line('\u{e9}', "caf\u{e9}").as_deref(), Some("caf\u{e9}"));
}

#[test]
fn a_group_comes_out_behind_feeding_and_joining() {
    let mut one = worker();
    asked(|h| one.feed(people(&[("x", 5)]), h));
    let mut two = worker();
    asked(|h| two.feed(people(&[("y", 7)]), h));
    asked(|h| one.join(&two, h));
    let out = asked(|h| one.group.finish(&mut ctx(), h)).unwrap();
    assert_eq!(col(&out, 0), vec!["x", "y"]);
    assert!(asked(|h| one.group.finish(&mut ctx(), h)).is_none());
}

#[test]
fn a_sort_puts_its_rows_out_once() {
    let mut o = Sort::new(vec![("age".to_string(), true), ("height".to_string(), false)]);
    let mut c = ctx();
    o.process(people(&[("a", 1), ("b", 3)]));
    o.process(people(&[("c", 1), ("d", 2)]));
    let out = o.finish(&mut c);
    assert_eq!(col(&out[0], 0), vec!["b", "d", "a", "c"]);
    assert_eq!(c.errors.len(), 1);
    assert_eq!(c.errors[0].message, "sort: unknown key 'height' (ignored)");
    assert!(o.finish(&mut c).is_empty());
    assert_eq!(c.errors.len(), 1);
}

#[test]
fn a_run_over_files_says_what_it_left_out() {
    let uris = texts(&["a", "b", "c"]);
    let causes = vec![None, Some("gone".to_string()), None];
    let (there, left) = quarantine(&uris, &causes, "read");
    assert_eq!(there.len() + left.len(), uris.len());
    let e = |m: &str| ErrorEvent::new(Severity::Warn, ErrorScope::Chunk, m.to_string());
    let all = file_group_events(vec![e("first")], left, vec![e("worker")]);
    let g = chain(vec![
        (source("d", false), "ls"),
        (Op::Read, "read"),
        (group(), "group"),
        (Op::Sort { keys: vec![(key("age"), true)] }, "sort"),
        (sink("o.csv"), "save"),
    ]);
    let shape = eligible_read_group_flow(&g).unwrap();
    assert_eq!(shape.tail, vec![3, 4]);
    let start = Level { level: vec![people(&[("x", 1), ("y", 2)])], errors: all, next: 0 };
    let (end, to) = run_tail(&g, &shape.tail, start);
    assert_eq!(to, Some(4));
    let r = file_group_result(&g, &shape, 2, 2, end.errors, None, &vec![1, 1]);
    let said: Vec<&str> = r.errors.iter().map(|x| x.message.as_str()).collect();
    assert_eq!(said, vec!["first", "read: skipped 'b': gone", "worker"]);
    assert_eq!(r.errors[1].severity, Severity::Recoverable);
    assert!(r.outputs.is_empty());
    let open = chain(vec![(source("d", false), "ls"), (Op::Read, "read"), (group(), "group")]);
    let shape = eligible_read_group_flow(&open).unwrap();
    let start = Level { level: vec![people(&[("x", 1)])], errors: Vec::new(), next: 0 };
    let (end, to) = run_tail(&open, &shape.tail, start);
    assert_eq!(to, None);
    let r = file_group_result(&open, &shape, 1, 1, end.errors, Some(end.level), &vec![1]);
    assert_eq!(r.outputs.len(), 1);
    assert_eq!(col(&r.outputs[0].chunks[0], 0), vec!["x"]);
}
