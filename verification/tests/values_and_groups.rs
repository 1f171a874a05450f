//! Values, aggregates, predicates, JSON and whole flows, with a host that answers
//! what the library leaves to it.
use rivus_runtime::agg::{div_round_half_even, AggAcc, AggFunc};
use rivus_runtime::chunk::{index_of, Chunk, Column, Field, Mode};
use rivus_runtime::compare::{compare, dt_cmp, temporal_op};
use rivus_runtime::engine::{
    group_thousands, mode_rank, partition, result_of, RunOptions, RunResult,
};
use rivus_runtime::event::{ErrorEvent, ErrorScope, OpCtx, Severity};
use rivus_runtime::eval::arith_value;
use rivus_runtime::expr::{Access, ArithOp, CmpOp, Expr, PathExpr};
use rivus_runtime::float::F64;
use rivus_runtime::flow::{Flow, Work};
use rivus_runtime::group::{AggSpec, GroupBy};
use rivus_runtime::host::{Answers, Ask, HostOp};
use rivus_runtime::jcolumn::jval_json;
use rivus_runtime::jrange::{infer_range, plan_parallel, probe_at, snap_ranges};
use rivus_runtime::json::parse_object;
use rivus_runtime::infer::Infer;
use rivus_runtime::jsonl::{
    infer_global, is_json_array, parse, skip_balanced, JsonlChunker, JsonlData, StreamJsonlReader,
};
use rivus_runtime::kernel::{cmp_scalar, compact_mask, compile, run, NumCmp};
use rivus_runtime::lanes::{column_from_values, eval_arith};
use rivus_runtime::operator::build;
use rivus_runtime::plan::{topo_order, Codec, Node, Op, PlanGraph};
use rivus_runtime::sink::json_object_row;
use rivus_runtime::sort::Sort;
use rivus_runtime::source::{
    is_compressed_path, jsonl_range_source, mem_source, report, Buffered, Report, SourceJsonl,
};
use rivus_runtime::sweep::Sweep;
use rivus_runtime::value::{DataType, Date, DateTime, Decimal, Duration, TimeUnit, Value};

// ------------------------------------------------------------------- host

fn fl(x: f64) -> F64 {
    F64 { bits: x.to_bits() }
}

fn un(x: F64) -> f64 {
    f64::from_bits(x.bits)
}

fn float_arg(v: &Value) -> f64 {
    match v {
        Value::F64(x) => un(*x),
        other => panic!("not a double: {:?}", other),
    }
}

fn as_number(v: &Value) -> Option<f64> {
    match v {
        Value::I64(n) => Some(*n as f64),
        Value::F64(x) => Some(un(*x)),
        Value::Bool(b) => Some(if *b { 1.0 } else { 0.0 }),
        Value::Dec(d) => Some(d.unscaled as f64 / 10f64.powi(d.scale as i32)),
        _ => None,
    }
}

fn clock(s: &str) -> Option<i64> {
    let parts: Vec<&str> = s.split(':').collect();
    if parts.len() != 3 {
        return None;
    }
    let n: Vec<i64> = parts.iter().filter_map(|p| p.parse().ok()).collect();
    if n.len() == 3 {
        Some(n[0] * 3600 + n[1] * 60 + n[2])
    } else {
        None
    }
}

fn answer(a: &Ask) -> Value {
    match a.op {
        HostOp::Arith(op) => {
            let (x, y) = (float_arg(&a.args[0]), float_arg(&a.args[1]));
            Value::F64(fl(match op {
                ArithOp::Add => x + y,
                ArithOp::Sub => x - y,
                ArithOp::Mul => x * y,
                ArithOp::Div => x / y,
                ArithOp::Mod => x % y,
            }))
        }
        HostOp::Ceil => Value::F64(fl(float_arg(&a.args[0]).ceil())),
        HostOp::Floor => Value::F64(fl(float_arg(&a.args[0]).floor())),
        HostOp::Round => Value::F64(fl(float_arg(&a.args[0]).round())),
        HostOp::Sqrt => Value::F64(fl(float_arg(&a.args[0]).max(0.0).sqrt())),
        HostOp::DecFloat => Value::F64(fl(as_number(&a.args[0]).unwrap())),
        HostOp::ParseFloat => match &a.args[0] {
            Value::Str(s) => match s.parse::<f64>() {
                Ok(x) => Value::F64(fl(x)),
                Err(_) => Value::Null,
            },
            _ => Value::Null,
        },
        HostOp::FloatText => Value::Str(format!("{}", float_arg(&a.args[0]))),
        HostOp::Render => Value::Str(match &a.args[0] {
            Value::F64(x) => format!("{}", un(*x)),
            Value::I64(n) => format!("{}", n),
            other => format!("{:?}", other),
        }),
        HostOp::ParseDuration { unit } => match &a.args[0] {
            Value::Str(s) if unit == TimeUnit::Sec => match clock(s) {
                Some(t) => Value::I64(t),
                None => Value::Null,
            },
            _ => Value::Null,
        },
        HostOp::Sums => {
            let mut m = [float_arg(&a.args[0]), float_arg(&a.args[1])];
            if let Value::List(vs) = &a.args[2] {
                for x in vs.iter().map(float_arg) {
                    m[0] += x;
                    m[1] += x * x;
                }
            }
            Value::List(m.iter().map(|x| Value::F64(fl(*x))).collect())
        }
        HostOp::Widen => match &a.args[0] {
            Value::I64(b) => Value::F64(fl(f32::from_bits(*b as u32) as f64)),
            _ => Value::Null,
        },
        HostOp::Listed => match &a.args[0] {
            Value::List(vs) => Value::Str(format!("[{}]", vs.len())),
            _ => Value::Str("[]".to_string()),
        },
        HostOp::TypeName { ty } => Value::Str(format!("{:?}", ty)),
        _ => Value::Null,
    }
}

// Calls until no question is open.
fn asked<T>(mut f: impl FnMut(&Answers) -> Result<T, Ask>) -> T {
    let mut host = Answers::new();
    loop {
        match f(&host) {
            Ok(r) => return r,
            Err(a) => {
                let v = answer(&a);
                host.add(a, v);
            }
        }
    }
}

fn s(t: &str) -> Value {
    Value::Str(t.to_string())
}

fn same(a: &Option<Value>, b: &Option<Value>) -> bool {
    match (a, b) {
        (Some(x), Some(y)) => x.same(y),
        (None, None) => true,
        _ => false,
    }
}

// -------------------------------------------------------------- temporal

#[test]
fn temporal_arithmetic_is_exact_and_typed() {
    let base = 1_700_000_000_000_000_000_i64;
    assert!(base as f64 == (base + 1) as f64, "precondition: f64 loses 1ns");
    let op = |l: &Value, o: ArithOp, r: &Value| asked(|h| temporal_op(l, o, r, h));
    let a = Value::DateTime(DateTime::new(base + 1, TimeUnit::Nano));
    let b = Value::DateTime(DateTime::new(base, TimeUnit::Nano));
    assert!(same(
        &op(&a, ArithOp::Sub, &b),
        &Some(Value::Duration(Duration::new(1, TimeUnit::Nano)))
    ));
    let span = Value::Duration(Duration::new(5, TimeUnit::Nano));
    assert!(same(
        &op(&b, ArithOp::Add, &span),
        &Some(Value::DateTime(DateTime::new(base + 5, TimeUnit::Nano)))
    ));
    let s1 = Value::Duration(Duration::new(90, TimeUnit::Sec));
    let s2 = Value::Duration(Duration::new(30, TimeUnit::Sec));
    assert!(same(
        &op(&s1, ArithOp::Add, &s2),
        &Some(Value::Duration(Duration::new(120, TimeUnit::Sec)))
    ));
    assert!(same(
        &op(&s1, ArithOp::Mul, &Value::I64(3)),
        &Some(Value::Duration(Duration::new(270, TimeUnit::Sec)))
    ));
    assert!(same(&op(&s1, ArithOp::Div, &s2), &Some(Value::F64(fl(3.0)))));
    assert!(same(&op(&a, ArithOp::Add, &b), &None));
    assert!(same(&op(&Value::I64(1), ArithOp::Add, &Value::I64(2)), &None));
}

#[test]
fn duration_compare_is_exact() {
    let base = 1_700_000_000_000_000_000_i64;
    let cmp = |l: &Value, o: CmpOp, r: &Value| asked(|h| dt_cmp(l, o, r, h));
    let x = Value::Duration(Duration::new(base, TimeUnit::Nano));
    let y = Value::Duration(Duration::new(base + 1, TimeUnit::Nano));
    assert_eq!(cmp(&x, CmpOp::Lt, &y), Some(true));
    assert_eq!(cmp(&x, CmpOp::Eq, &y), Some(false));
    let h = Value::Duration(Duration::new(90, TimeUnit::Sec));
    assert_eq!(cmp(&h, CmpOp::Eq, &s("00:01:30")), Some(true));
    assert_eq!(cmp(&h, CmpOp::Lt, &s("00:02:00")), Some(true));
}

#[test]
fn nanosecond_compare_is_exact_past_2_pow_53() {
    let base = 1_700_000_000_000_000_000_i64;
    assert!(base as f64 == (base + 1) as f64, "precondition: f64 loses 1ns");
    let cmp = |l: &Value, o: CmpOp, r: &Value| asked(|h| dt_cmp(l, o, r, h));
    let a = Value::DateTime(DateTime::new(base, TimeUnit::Nano));
    let b = Value::DateTime(DateTime::new(base + 1, TimeUnit::Nano));
    assert_eq!(cmp(&a, CmpOp::Lt, &b), Some(true));
    assert_eq!(cmp(&a, CmpOp::Ge, &b), Some(false));
    assert_eq!(cmp(&a, CmpOp::Eq, &b), Some(false));
    assert_eq!(cmp(&a, CmpOp::Ne, &b), Some(true));
    assert_eq!(cmp(&a, CmpOp::Eq, &Value::I64(base)), Some(true));
    assert_eq!(cmp(&a, CmpOp::Ge, &Value::I64(base + 1)), Some(false));
    assert_eq!(cmp(&b, CmpOp::Gt, &Value::I64(base)), Some(true));
}

#[test]
fn cross_unit_and_bad_literal() {
    let cmp = |l: &Value, o: CmpOp, r: &Value| asked(|h| dt_cmp(l, o, r, h));
    let sec = Value::DateTime(DateTime::new(1, TimeUnit::Sec));
    let ms = Value::DateTime(DateTime::new(1_000, TimeUnit::Milli));
    assert_eq!(cmp(&sec, CmpOp::Eq, &ms), Some(true));
    let bad = s("not-a-date");
    assert_eq!(cmp(&sec, CmpOp::Ge, &bad), Some(false));
    assert_eq!(cmp(&sec, CmpOp::Ne, &bad), Some(true));
}

#[test]
fn comparisons_of_other_kinds() {
    let cmp = |l: &Value, o: CmpOp, r: &Value| asked(|h| compare(l, o, r, h));
    assert!(cmp(&Value::I64(2), CmpOp::Lt, &Value::F64(fl(2.5))));
    assert!(cmp(&s("b"), CmpOp::Gt, &s("a")));
    assert!(cmp(
        &Value::Dec(Decimal::new(150, 2)),
        CmpOp::Eq,
        &Value::Dec(Decimal::new(15, 1))
    ));
    assert!(!cmp(&Value::F64(fl(f64::NAN)), CmpOp::Eq, &Value::F64(fl(f64::NAN))));
}

// ------------------------------------------------------------- aggregates

fn text_for(v: &Value) -> String {
    match v {
        Value::Str(t) => t.clone(),
        Value::I64(n) => format!("{}", n),
        Value::F64(x) => format!("{}", un(*x)),
        Value::Dec(d) => format!("{}e-{}", d.unscaled, d.scale),
        other => format!("{:?}", other),
    }
}

fn single(func: AggFunc, vals: &[Value]) -> AggAcc {
    let mut a = AggAcc::new(func);
    for v in vals {
        a.observe(v, &text_for(v));
    }
    a
}

fn partitioned(func: AggFunc, vals: &[Value], parts: usize) -> AggAcc {
    let runs: Vec<&[Value]> = vals.chunks(vals.len().div_ceil(parts.max(1))).collect();
    let mut accs: Vec<AggAcc> = runs.iter().map(|c| single(func, c)).collect();
    let mut merged = accs.remove(0);
    for a in &accs {
        asked(|h| merged.merge(a, h));
    }
    merged
}

#[test]
fn decimal_sum_merge_equals_single_pass() {
    let vals: Vec<Value> = (0..1000)
        .map(|i| Value::Dec(Decimal::new((i % 97) + 1, 2)))
        .collect();
    for parts in [1, 2, 3, 7, 16] {
        let one = single(AggFunc::Sum, &vals);
        let m = partitioned(AggFunc::Sum, &vals, parts);
        assert_eq!(
            m.dec_value().unwrap(),
            one.dec_value().unwrap(),
            "decimal sum merge != single-pass @parts={parts}"
        );
        let oracle: i128 = (0..1000).map(|i| (i % 97) + 1).sum();
        assert_eq!(m.dec_value().unwrap(), Decimal::new(oracle, 2));
    }
}

#[test]
fn datetime_minmax_is_exact_i64_and_type_preserving() {
    let base = 1_700_000_000_000_000_000_i64;
    assert!(base as f64 == (base + 1) as f64, "precondition: f64 loses 1ns");
    let vals: Vec<Value> = [base + 2, base + 9, base, base + 5, base + 1]
        .into_iter()
        .map(|t| Value::DateTime(DateTime::new(t, TimeUnit::Nano)))
        .collect();
    for parts in [1usize, 2, 3, 5] {
        let mn = partitioned(AggFunc::Min, &vals, parts);
        let mx = partitioned(AggFunc::Max, &vals, parts);
        assert_eq!(mn.dt_value(), Some(DateTime::new(base, TimeUnit::Nano)));
        assert_eq!(mx.dt_value(), Some(DateTime::new(base + 9, TimeUnit::Nano)));
        let s_mn = single(AggFunc::Min, &vals);
        assert_eq!(mn.dt_value(), s_mn.dt_value(), "min merge != single @{parts}");
    }
}

#[test]
fn decimal_avg_merge_equals_single_pass() {
    let vals: Vec<Value> = (0..500)
        .map(|i| Value::Dec(Decimal::new((i * 7 % 1000) + 1, 2)))
        .collect();
    for parts in [1, 2, 5, 13] {
        let one = single(AggFunc::Avg, &vals);
        let m = partitioned(AggFunc::Avg, &vals, parts);
        assert_eq!(
            m.dec_value().unwrap(),
            one.dec_value().unwrap(),
            "decimal avg merge != single-pass @parts={parts}"
        );
    }
}

#[test]
fn safe_aggregates_merge_equals_single_pass() {
    let vals: Vec<Value> = (0..300i64)
        .map(|i| match i % 5 {
            0 => Value::I64(i),
            1 => Value::F64(fl(i as f64 * 1.5)),
            2 => Value::Str(format!("v{}", i % 11)),
            _ => Value::Dec(Decimal::new(i as i128, 3)),
        })
        .collect();
    for parts in [1, 2, 4, 9] {
        for func in [
            AggFunc::Min,
            AggFunc::Max,
            AggFunc::CountDistinct,
            AggFunc::First,
            AggFunc::Last,
            AggFunc::Pct(50),
            AggFunc::Pct(90),
        ] {
            let one = single(func, &vals);
            let m = partitioned(func, &vals, parts);
            let (sv, mv) = match func {
                AggFunc::CountDistinct => (
                    one.distinct_count().to_string(),
                    m.distinct_count().to_string(),
                ),
                AggFunc::First => (one.first_str(), m.first_str()),
                AggFunc::Last => (one.last_str(), m.last_str()),
                _ => (
                    asked(|h| one.num_value(h)).bits.to_string(),
                    asked(|h| m.num_value(h)).bits.to_string(),
                ),
            };
            assert_eq!(sv, mv, "{func:?} merge != single-pass @parts={parts}");
        }
    }
}

#[test]
fn numbers_of_a_group() {
    let vals: Vec<Value> = [2.0, 4.0, 4.0, 4.0, 5.0, 5.0, 7.0, 9.0]
        .iter()
        .map(|x| Value::F64(fl(*x)))
        .collect();
    assert_eq!(un(asked(|h| single(AggFunc::Sum, &vals).num_value(h))), 40.0);
    assert_eq!(un(asked(|h| single(AggFunc::Avg, &vals).num_value(h))), 5.0);
    assert_eq!(un(asked(|h| single(AggFunc::Pct(50), &vals).num_value(h))), 4.5);
    assert_eq!(un(asked(|h| single(AggFunc::Avg, &[]).num_value(h))), 0.0);
    assert_eq!(div_round_half_even(5, 2), 2);
    assert_eq!(div_round_half_even(7, 2), 4);
    assert_eq!(div_round_half_even(-5, 2), -2);
}

// ----------------------------------------------------------------- kernel

struct SplitMix(u64);

impl SplitMix {
    fn next(&mut self) -> u64 {
        self.0 = self.0.wrapping_add(0x9E37_79B9_7F4A_7C15);
        let mut z = self.0;
        z = (z ^ (z >> 30)).wrapping_mul(0xBF58_476D_1CE4_E5B9);
        z = (z ^ (z >> 27)).wrapping_mul(0x94D0_49BB_1331_11EB);
        z ^ (z >> 31)
    }
}

fn one(col: usize, op: CmpOp, rhs: f64) -> NumCmp {
    NumCmp { col, op, rhs: fl(rhs), rhs_dec: None }
}

fn oracle(v: &[f64], op: CmpOp, rhs: f64) -> Vec<usize> {
    (0..v.len())
        .filter(|&i| cmp_scalar(fl(v[i]), op, fl(rhs)))
        .collect()
}

fn chunk(id: u64, fields: Vec<(&str, DataType)>, columns: Vec<Vec<Value>>) -> Chunk {
    let len = columns.first().map_or(0, |c| c.len());
    Chunk {
        columns: fields
            .iter()
            .zip(columns)
            .map(|((_, ty), cells)| Column { dtype: *ty, cells })
            .collect(),
        fields: fields
            .iter()
            .map(|(n, ty)| Field::flat(n.to_string(), *ty))
            .collect(),
        len,
        id,
        mode: Mode::Normal,
        source: None,
    }
}

#[test]
fn compact_mask_matches_branchy() {
    let branchy =
        |mask: &[u8]| -> Vec<usize> { (0..mask.len()).filter(|&i| mask[i] != 0).collect() };
    let mut rng = SplitMix(0xABCD_1234);
    for &n in &[0usize, 1, 2, 3, 7, 8, 31, 64, 1000, 4096, 4097] {
        for &density in &[0u64, 1, 13, 50, 87, 100] {
            let mask: Vec<u8> = (0..n)
                .map(|_| ((rng.next() % 100) < density) as u8)
                .collect();
            assert_eq!(
                compact_mask(&mask),
                branchy(&mask),
                "compact_mask != branchy (n={n}, density={density})"
            );
            let mask2: Vec<u8> = mask.iter().map(|&m| m.wrapping_mul(255)).collect();
            assert_eq!(compact_mask(&mask2), branchy(&mask2));
        }
    }
}

#[test]
fn kernel_matches_scalar_oracle() {
    let ops = [CmpOp::Lt, CmpOp::Le, CmpOp::Gt, CmpOp::Ge, CmpOp::Eq, CmpOp::Ne];
    for &n in &[0usize, 1, 3, 4, 5, 7, 8, 31, 33, 1000, 4096, 4099] {
        let mut rng = SplitMix(0xC0FF_EE00 ^ n as u64);
        let mut v = Vec::with_capacity(n);
        for _ in 0..n {
            let r = rng.next();
            let x = match r % 8 {
                0 => 50.0,
                1 => f64::NAN,
                2 => -(((r >> 8) % 100) as f64),
                _ => ((r >> 8) % 100) as f64,
            };
            v.push(x);
        }
        let rhs = 50.0;
        for &op in &ops {
            let c = chunk(
                1,
                vec![("x", DataType::F64)],
                vec![v.iter().map(|x| Value::F64(fl(*x))).collect()],
            );
            let plan = vec![one(0, op, rhs)];
            let got = asked(|h| run(&plan, &c, h));
            let want = oracle(&v, op, rhs);
            assert_eq!(got, want, "kernel != oracle (n={n}, op={op:?})");
        }
    }
}

#[test]
fn conjunction_over_mixed_lanes_matches_oracle() {
    let n = 500usize;
    let mut rng = SplitMix(7);
    let (mut ages, mut scores, mut actives) = (Vec::new(), Vec::new(), Vec::new());
    for _ in 0..n {
        ages.push((rng.next() % 90) as i64);
        scores.push(((rng.next() % 10_000) as f64) / 100.0);
        actives.push(rng.next() % 2 == 1);
    }
    let c = chunk(
        1,
        vec![
            ("age", DataType::I64),
            ("score", DataType::F64),
            ("active", DataType::Bool),
        ],
        vec![
            ages.iter().map(|x| Value::I64(*x)).collect(),
            scores.iter().map(|x| Value::F64(fl(*x))).collect(),
            actives.iter().map(|x| Value::Bool(*x)).collect(),
        ],
    );
    let plan = vec![
        one(0, CmpOp::Ge, 30.0),
        one(1, CmpOp::Lt, 50.0),
        one(2, CmpOp::Eq, 1.0),
    ];
    let got = asked(|h| run(&plan, &c, h));
    let want: Vec<usize> = (0..n)
        .filter(|&i| {
            ages[i] >= 30 && scores[i] < 50.0 && (if actives[i] { 1.0 } else { 0.0 } == 1.0)
        })
        .collect();
    assert_eq!(got, want);
}

// ------------------------------------------------------------------- JSON

fn read(text: &str) -> JsonlData {
    asked(|h| parse(text, h)).unwrap()
}

fn names(d: &JsonlData) -> Vec<String> {
    d.fields.iter().map(|f| f.name.clone()).collect()
}

fn ints(c: &Column) -> Vec<i64> {
    assert_eq!(c.dtype, DataType::I64, "expected i64");
    c.cells
        .iter()
        .map(|v| match v {
            Value::I64(n) => *n,
            other => panic!("expected i64: {:?}", other),
        })
        .collect()
}

#[test]
fn parses_flat_objects_and_infers_types() {
    let text = "{\"name\":\"aki\",\"age\":30,\"score\":1.5,\"ok\":true}\n\
                {\"name\":\"ben\",\"age\":15,\"score\":2.0,\"ok\":false}\n";
    let d = read(text);
    assert_eq!(d.bad_rows, 0);
    assert_eq!(names(&d), vec!["name", "age", "score", "ok"]);
    assert_eq!(d.fields[1].dtype, DataType::I64);
    assert_eq!(d.fields[2].dtype, DataType::F64);
    assert_eq!(d.fields[3].dtype, DataType::Bool);
    assert!(d.columns[0].value_at(0).same(&s("aki")), "expected str");
}

#[test]
fn bad_lines_are_skipped() {
    let d = read("{\"a\":1}\nnot json\n{\"a\":2}\n");
    assert_eq!(d.bad_rows, 1);
    assert_eq!(ints(&d.columns[0]), vec![1, 2]);
}

#[test]
fn parses_json_array_multiline() {
    let text = "[\n  {\"name\":\"aki\",\"age\":30},\n  {\"name\":\"ben\",\"age\":15},\n  42,\n  {\"name\":\"cho\",\"age\":40}\n]";
    let d = read(text);
    assert_eq!(names(&d), vec!["name", "age"]);
    assert_eq!(d.bad_rows, 1);
    assert_eq!(ints(&d.columns[1]), vec![30, 15, 40]);
}

#[test]
fn nested_object_becomes_struct_column() {
    let text = "{\"id\":1,\"meta\":{\"x\":2,\"y\":\"a\"}}\n\
                {\"id\":2,\"meta\":{\"x\":5,\"y\":\"b\"}}\n";
    let d = read(text);
    let idx = index_of(&d.fields, "meta").unwrap();
    assert_eq!(d.fields[idx].dtype, DataType::Struct);
    assert_eq!(d.columns[idx].len(), 2);
    match d.columns[idx].value_at(1) {
        Value::Struct(m) => {
            assert_eq!(m[0].0, "x");
            assert_eq!(m[1].0, "y");
            assert!(m[0].1.same(&Value::I64(5)));
            assert!(m[1].1.same(&s("b")));
        }
        other => panic!("expected struct column: {:?}", other),
    }
}

#[test]
fn nested_array_becomes_list_column() {
    let d = read("{\"id\":1,\"tags\":[10,20]}\n{\"id\":2,\"tags\":[30]}\n");
    let idx = index_of(&d.fields, "tags").unwrap();
    assert_eq!(d.fields[idx].dtype, DataType::List);
    let lists: Vec<Vec<Value>> = (0..2)
        .map(|r| match d.columns[idx].value_at(r) {
            Value::List(v) => v,
            other => panic!("expected list column: {:?}", other),
        })
        .collect();
    assert_eq!((lists[0].len(), lists[1].len()), (2, 1));
    assert!(lists[1][0].same(&Value::I64(30)));
}

#[test]
fn missing_or_null_nested_is_typed_null_not_silent() {
    let d = read("{\"id\":1,\"meta\":{\"x\":2}}\n{\"id\":2}\n{\"id\":3,\"meta\":null}\n");
    let idx = index_of(&d.fields, "meta").unwrap();
    assert_eq!(d.fields[idx].dtype, DataType::Struct);
    let col = &d.columns[idx];
    assert!(!col.is_null(0));
    assert!(col.is_null(1));
    assert!(col.is_null(2));
}

#[test]
fn broken_nested_line_counted_as_bad_row() {
    let text = "{\"id\":1,\"meta\":{\"x\":2}}\n{\"id\":2,\"meta\":{\"x\":}\n{\"id\":3,\"meta\":{\"x\":9}}\n";
    let d = read(text);
    assert_eq!(d.bad_rows, 1);
    assert_eq!(d.columns[0].len(), 2);
}

#[test]
fn a_document_without_an_object_is_refused() {
    assert_eq!(
        asked(|h| parse("\n 1\n", h)).unwrap_err(),
        "JSON has no valid objects"
    );
    assert_eq!(asked(|h| parse("[]", h)).unwrap_err(), "JSON has no valid objects");
    assert_eq!(asked(|h| parse("{}", h)).unwrap_err(), "JSON has no valid objects");
}

#[test]
fn json_strings_are_unescaped() {
    let line: Vec<char> = "{\"k\":\"\\u0041\\n\\\"\"}".chars().collect();
    let m = asked(|h| parse_object(&line, h)).unwrap();
    assert!(m[0].1.same(&s("A\n\"")));
    let mixed = read("{\"a\":1}\n{\"a\":\"x\"}\n{\"a\":[1,{\"b\":2.5}]}\n");
    assert_eq!(mixed.fields[0].dtype, DataType::Str);
    assert!(mixed.columns[0].value_at(0).same(&s("1")));
    assert!(mixed.columns[0].value_at(2).same(&s("[1,{\"b\":2.5}]")));
    let back = asked(|h| jval_json(&Value::List(vec![s("q\"\\"), Value::Null]), h));
    assert_eq!(back, "[\"q\\\"\\\\\",null]");
}

#[test]
fn arrays_are_told_from_lines() {
    assert!(is_json_array(&b" \n\t[1]".to_vec()));
    assert!(!is_json_array(&b"{\"a\":1}".to_vec()));
    assert!(!is_json_array(&Vec::new()));
}

fn lines(text: &str) -> Vec<String> {
    text.split('\n').map(|l| l.to_string()).collect()
}

#[test]
fn chunks_give_back_the_whole() {
    let text = "{\"a\":1}\nbad\n{\"a\":2}\n\n{\"a\":3}\n";
    let (fields, mut c) =
        asked(|h| JsonlChunker::open(lines(text), 2, h)).unwrap();
    assert_eq!(fields[0].dtype, DataType::I64);
    assert_eq!(c.bad_rows(), 1);
    let mut got = Vec::new();
    while let Some(cols) = asked(|h| c.next_columns(h)) {
        assert!(cols[0].len() <= 2);
        got.extend(ints(&cols[0]));
    }
    assert_eq!(got, vec![1, 2, 3]);
    assert_eq!(
        asked(|h| JsonlChunker::open(lines("x"), 2, h)).unwrap_err(),
        "JSON has no valid objects"
    );
}

#[test]
fn a_stream_is_typed_by_its_first_chunk() {
    let text = "{\"a\":1}\n{\"a\":\"x\"}\nbad\n{\"a\":2}\n";
    let (fields, mut r) =
        asked(|h| StreamJsonlReader::from_reader(lines(text), 1, h)).unwrap();
    assert_eq!(fields[0].dtype, DataType::I64);
    assert_eq!(r.bad_rows(), 0);
    let mut cells = Vec::new();
    while let Some(cols) = asked(|h| r.next_columns(h)) {
        cells.push(cols[0].value_at(0));
    }
    assert!(cells[0].same(&Value::I64(1)));
    assert!(cells[1].same(&Value::Null));
    assert!(cells[2].same(&Value::I64(2)));
    assert_eq!(r.bad_rows(), 1);
    assert_eq!(
        asked(|h| StreamJsonlReader::from_reader(lines(""), 1, h)).unwrap_err(),
        "JSON stream has no valid objects"
    );
}

#[test]
fn ranges_cover_a_file_and_tell_the_same() {
    assert_eq!(probe_at(100, 1, 4), 25);
    assert_eq!(snap_ranges(0, &vec![]), None);
    assert_eq!(
        snap_ranges(100, &vec![30, 30, 100]),
        Some(vec![(0, 30), (30, 100)])
    );
    let a = asked(|h| infer_range(&lines("{\"a\":1,\"b\":2}\nbad"), h));
    let b = asked(|h| infer_range(&lines("{\"a\":1.5,\"c\":3}"), h));
    let (names, types, bad) = plan_parallel(&vec![a, b]).unwrap();
    assert_eq!(names, vec!["a", "b"]);
    assert_eq!(bad, 1);
    let whole = asked(|h| JsonlChunker::open(lines("{\"a\":1,\"b\":2}\nbad\n{\"a\":1.5,\"c\":3}"), 9, h));
    let (fields, _) = whole.unwrap();
    assert_eq!(format!("{:?}", types[0]), "Scalar(F64)");
    assert_eq!(format!("{:?}", types[1]), "Scalar(I64)");
    assert_eq!(fields[0].dtype, DataType::F64);
    assert_eq!(fields[1].dtype, DataType::I64);
    assert!(plan_parallel(&vec![]).is_none());
    let mut c = JsonlChunker::for_range(lines("{\"b\":7}"), names, types, 0);
    let cols = asked(|h| c.next_columns(h)).unwrap();
    assert!(cols[0].value_at(0).same(&Value::Null));
    assert!(cols[1].value_at(0).same(&Value::I64(7)));
}

// ------------------------------------------------------------------ flows

fn field(name: &str) -> Box<Expr> {
    Box::new(Expr::Field { name: name.to_string(), access: Access::Fast })
}

fn age(op: CmpOp, n: i64) -> Expr {
    Expr::Compare { left: field("age"), op, right: Box::new(Expr::Literal(Value::I64(n))) }
}

fn node(id: usize, label: Option<&str>, op: Op, kind: &str) -> Node {
    Node {
        id,
        label: label.map(|l| l.to_string()),
        op,
        kind: kind.to_string(),
        line: String::new(),
        hooks: Vec::new(),
    }
}

fn source(path: &str) -> Op {
    Op::Source { path: path.to_string(), unbounded: false, codec: Codec::Csv }
}

fn people(rows: &[(&str, i64)]) -> Chunk {
    chunk(
        0,
        vec![("name", DataType::Str), ("age", DataType::I64)],
        vec![
            rows.iter().map(|r| s(r.0)).collect(),
            rows.iter().map(|r| Value::I64(r.1)).collect(),
        ],
    )
}

// Runs a flow over rows that were read already.
fn drive(g: &PlanGraph, mut src: Buffered, ops: Vec<Option<Op>>, first: Vec<ErrorEvent>) -> RunResult {
    let mut at_work: Vec<_> = ops
        .into_iter()
        .enumerate()
        .map(|(n, op)| op.map(|o| build(o, &g.inputs_of(n)).unwrap()))
        .collect();
    let mut flow = Flow::start(g, RunOptions::default().max_capture);
    let order = topo_order(g).expect("flow graph contains a cycle");
    let mut sweep = Sweep::start(&order);
    let mut next: u64 = 0;
    let mut opening = first;
    loop {
        let sat = at_work
            .iter()
            .map(|o| o.as_ref().map_or(false, |o| o.saturated()))
            .collect();
        let (n, work) = match sweep.next(&flow, g, &sat, &order) {
            Some(next) => next,
            None => return result_of(flow, g),
        };
        let mut ctx = OpCtx::new(String::new(), next);
        let (out, ended) = match work {
            Work::Pull => {
                ctx.errors.append(&mut opening);
                match src.pull(&mut ctx) {
                    Some(c) => {
                        flow.note_pulled(c.len);
                        (vec![c], false)
                    }
                    None => (Vec::new(), true),
                }
            }
            Work::Process => {
                let q = flow.take_input(g, n);
                let out = match &mut at_work[n] {
                    Some(o) => {
                        assert!(o.accepts(q.from, &q.chunk));
                        asked(|h| o.process(q.from, &q.chunk, &mut ctx, h))
                    }
                    None => vec![q.chunk],
                };
                (out, false)
            }
            Work::Finish => match &mut at_work[n] {
                Some(o) => (asked(|h| o.finish(&mut ctx, h)), true),
                None => (Vec::new(), true),
            },
            _ => (Vec::new(), true),
        };
        next = ctx.next_chunk_id;
        flow.record(g, n, ctx.errors, out, ended);
    }
}

fn buffered(all: Chunk, chunk_size: usize) -> Buffered {
    Buffered { all, cursor: 0, chunk_size }
}

#[test]
fn filter_project_pipeline() {
    let keep = || Op::Filter { pred: age(CmpOp::Ge, 20) };
    let pick = || Op::Project { fields: vec!["name".to_string()] };
    let g = PlanGraph {
        nodes: vec![
            node(0, None, source("users.csv"), "open"),
            node(1, None, keep(), "filter"),
            node(2, Some("Users"), pick(), "project"),
        ],
        edges: vec![(0, 1), (1, 2)],
    };
    let rows = people(&[("aki", 30), ("ben", 15), ("cho", 40)]);
    let res = drive(&g, buffered(rows, 2), vec![None, Some(keep()), Some(pick())], Vec::new());
    let out = &res.outputs[0];
    let names: Vec<Value> = out
        .chunks
        .iter()
        .flat_map(|c| (0..c.len).map(|r| c.value(r, 0)).collect::<Vec<Value>>())
        .collect();
    assert_eq!(names.len(), 2);
    assert!(names[0].same(&s("aki")));
    assert!(names[1].same(&s("cho")));
    assert_eq!(out.label.as_deref(), Some("Users"));
}

#[test]
fn branch_and_merge_preserves_all_rows() {
    let adults = || Op::Filter { pred: age(CmpOp::Ge, 20) };
    let minors = || Op::Filter { pred: age(CmpOp::Lt, 20) };
    let g = PlanGraph {
        nodes: vec![
            node(0, Some("Users"), source("split.csv"), "open"),
            node(1, Some("Adults"), adults(), "filter"),
            node(2, Some("Minors"), minors(), "filter"),
            node(3, Some("Merged"), Op::Merge, "merge"),
        ],
        edges: vec![(0, 1), (0, 2), (1, 3), (2, 3)],
    };
    let rows = people(&[("aki", 30), ("ben", 15), ("cho", 40), ("dee", 10)]);
    let res = drive(
        &g,
        buffered(rows, 4),
        vec![None, Some(adults()), Some(minors()), None],
        Vec::new(),
    );
    let merged = res
        .outputs
        .iter()
        .find(|o| o.label.as_deref() == Some("Merged"))
        .unwrap();
    let rows: u64 = merged.chunks.iter().map(|c| c.len as u64).sum();
    assert_eq!(rows, 4);
}

#[test]
fn malformed_rows_continue() {
    let keep = || Op::Filter { pred: age(CmpOp::Ge, 20) };
    let g = PlanGraph {
        nodes: vec![
            node(0, None, source("bad.csv"), "open"),
            node(1, Some("Users"), keep(), "filter"),
        ],
        edges: vec![(0, 1)],
    };
    let rows = people(&[("aki", 30), ("cho", 40)]);
    let bad = report(Report::BadRows(1), "bad.csv");
    let res = drive(&g, buffered(rows, 4096), vec![None, Some(keep())], vec![bad]);
    assert!(res.errors.iter().any(|e| e.message.contains("malformed")));
    assert_eq!(res.total_rows_out(), 2);
}

#[test]
fn a_fatal_event_ends_the_run_after_its_sweep() {
    let keep = || Op::Filter { pred: age(CmpOp::Ge, 0) };
    let g = PlanGraph {
        nodes: vec![node(0, None, source("a.csv"), "open"), node(1, None, keep(), "filter")],
        edges: vec![(0, 1)],
    };
    let rows = people(&[("a", 1), ("b", 2), ("c", 3)]);
    let bad = ErrorEvent::new(Severity::Fatal, ErrorScope::Graph, "m".to_string());
    let res = drive(&g, buffered(rows.dup(), 1), vec![None, Some(keep())], vec![bad]);
    assert_eq!(res.final_mode, Mode::Halted);
    assert_eq!(res.total_rows_out(), 1);
    let warn = ErrorEvent::new(Severity::Critical, ErrorScope::Graph, "m".to_string());
    let res = drive(&g, buffered(rows, 1), vec![None, Some(keep())], vec![warn]);
    assert_eq!(res.total_rows_out(), 3);
}

#[test]
fn thousands_separator() {
    assert_eq!(group_thousands(0), "0");
    assert_eq!(group_thousands(42), "42");
    assert_eq!(group_thousands(999), "999");
    assert_eq!(group_thousands(1_000), "1,000");
    assert_eq!(group_thousands(12_345), "12,345");
    assert_eq!(group_thousands(123_456), "123,456");
    assert_eq!(group_thousands(48_000_000), "48,000,000");
}

#[test]
fn a_json_source_reports_and_pulls() {
    let mut ctx = OpCtx::new("src".to_string(), 5);
    let mut src = asked(|h| SourceJsonl::load_lines(lines("{\"a\":1}\nbad\n{\"a\":2}"), 1, &mut ctx, h));
    assert_eq!(ctx.errors[0].message, "1 malformed JSONL line(s) skipped");
    assert_eq!(ctx.errors[0].node.as_deref(), Some("src"));
    let c = asked(|h| src.pull(&mut ctx, h)).unwrap();
    assert_eq!((c.id, c.len), (5, 1));
    assert!(asked(|h| src.pull(&mut ctx, h)).is_some());
    assert!(asked(|h| src.pull(&mut ctx, h)).is_none());
    let mut whole = asked(|h| SourceJsonl::load_whole("[{\"a\":1},{\"a\":2},{\"a\":3}]", 2, &mut ctx, h));
    assert_eq!(asked(|h| whole.pull(&mut ctx, h)).unwrap().len, 2);
    assert_eq!(asked(|h| whole.pull(&mut ctx, h)).unwrap().len, 1);
    assert!(asked(|h| whole.pull(&mut ctx, h)).is_none());
    let mut other = OpCtx::new("src".to_string(), 0);
    let mut none = asked(|h| SourceJsonl::load_whole("[]", 2, &mut other, h));
    assert!(other.errors[0].is_fatal());
    assert!(asked(|h| none.pull(&mut other, h)).is_none());
}

#[test]
fn sources_say_what_happened() {
    assert!(is_compressed_path("a/b.CSV.GZ"));
    assert!(is_compressed_path("x.zstd"));
    assert!(!is_compressed_path("-"));
    assert!(!is_compressed_path("x.csv"));
    let m = |r: Report| report(r, "n").message;
    assert_eq!(m(Report::BadRows(3)), "3 malformed row(s) skipped");
    assert_eq!(m(Report::TrailingBytes(2)), "2 trailing byte(s) ignored (partial record)");
    assert_eq!(m(Report::Prefiltered(9)), "prefilter skipped 9 row(s) at the reader");
    assert_eq!(m(Report::CannotOpen("p", "gone")), "cannot open 'p': gone");
    assert_eq!(
        m(Report::Compressed("p.gz")),
        "'p.gz' is compressed; rebuild with `--features gzip` to read it"
    );
    assert_eq!(
        m(Report::Compressed("p.zst")),
        "'p.zst' is compressed; rebuild with `--features zstd` to read it"
    );
    let e = report(Report::NoHistory("x"), "n");
    assert_eq!(e.message, "stream replay 'x' has no recorded history (MVP)");
    assert!(e.node.is_none());
    assert_eq!(e.severity, Severity::Info);
    assert_eq!(e.scope, ErrorScope::Graph);
}

#[test]
fn groups_are_counted_and_summed() {
    let mut g = GroupBy::new(
        vec!["name".to_string()],
        vec![AggSpec { func: AggFunc::Max, col: "age".to_string(), label: "max".to_string() }],
    );
    let mut h = GroupBy::new(
        vec!["name".to_string()],
        vec![AggSpec { func: AggFunc::Max, col: "age".to_string(), label: "max".to_string() }],
    );
    let mut ctx = OpCtx::new("g".to_string(), 0);
    let a = people(&[("x", 1), ("y", 2), ("x", 3)]);
    let b = people(&[("x", 9)]);
    asked(|host| g.process(&a, &mut ctx, host));
    asked(|host| h.process(&b, &mut ctx, host));
    asked(|host| g.merge_from(&h, host));
    let out = asked(|host| g.finish(&mut ctx, host)).unwrap();
    assert_eq!(out.len, 2);
    assert_eq!(out.fields[0].name, "name");
    assert_eq!(out.fields[1].name, "count");
    assert!(out.value(0, 0).same(&s("x")));
    assert!(out.value(0, 1).same(&Value::I64(3)));
    assert!(out.value(0, 2).same(&Value::F64(fl(9.0))));
}

#[test]
fn parts_are_contiguous_and_cover() {
    let all: Vec<Chunk> = (0..5).map(|i| chunk(i, vec![], vec![])).collect();
    let parts = partition(&all, 2);
    let ids: Vec<u64> = parts.iter().flatten().map(|c| c.id).collect();
    assert_eq!(ids, vec![0, 1, 2, 3, 4]);
    assert!(parts.len() <= 2);
    assert!(mode_rank(Mode::Halted) > mode_rank(Mode::Normal));
}

#[test]
fn calendar_values_are_compared_as_values() {
    let d = |n: i32| Value::Date(Date { epoch_day: n });
    assert!(asked(|h| compare(&d(1), CmpOp::Eq, &d(1), h)));
}

#[test]
fn a_flow_sorts_and_then_takes() {
    let sort = || Op::Sort { keys: vec![(PathExpr { root: "age".to_string(), segs: Vec::new() }, true)] };
    let take = || Op::Take { n: 2 };
    let g = PlanGraph {
        nodes: vec![
            node(0, None, source("users.csv"), "open"),
            node(1, None, sort(), "sort"),
            node(2, Some("Oldest"), take(), "take"),
        ],
        edges: vec![(0, 1), (1, 2)],
    };
    let rows = people(&[("aki", 30), ("ben", 15), ("cho", 40), ("dai", 40)]);
    let res = drive(&g, buffered(rows, 1), vec![None, Some(sort()), Some(take())], Vec::new());
    assert_eq!(res.outputs.len(), 1);
    let out = &res.outputs[0].chunks[0];
    assert_eq!(out.len, 2);
    assert!(out.columns[0].value_at(0).same(&s("cho")));
    assert!(out.columns[0].value_at(1).same(&s("dai")));
}

#[test]
fn what_lies_outside_a_flow_is_handed_back() {
    assert!(matches!(build(source("users.csv"), &vec![]), Err(Op::Source { .. })));
    assert!(matches!(build(Op::StreamRef { name: "s".to_string() }, &vec![]), Err(Op::StreamRef { .. })));
    let mut merge = build(Op::Merge, &vec![0, 1]).unwrap();
    let mut ctx = OpCtx::new(String::new(), 7);
    let rows = people(&[("aki", 30)]);
    let out = asked(|h| merge.process(0, &rows, &mut ctx, h));
    assert_eq!(out.len(), 1);
    assert_eq!(out[0].id, rows.id);
    assert!(asked(|h| merge.finish(&mut ctx, h)).is_empty());
    assert!(!merge.saturated());
    let mut none = build(Op::Take { n: 1 }, &vec![0]).unwrap();
    assert!(!none.saturated());
    assert_eq!(asked(|h| none.process(0, &rows, &mut ctx, h)).len(), 1);
    assert!(none.saturated());
    assert!(asked(|h| none.process(0, &rows, &mut ctx, h)).is_empty());
}

// ------------------------------------------------------------- arithmetic

fn column(dtype: DataType, cells: Vec<Value>) -> Column {
    let mut c = chunk(0, vec![("c", dtype)], vec![cells]);
    c.columns.remove(0)
}

#[test]
fn a_zero_divisor_is_missing_and_counted_alike() {
    let pairs = [
        (Value::I64(7), ArithOp::Div, Value::I64(0)),
        (Value::I64(7), ArithOp::Mod, Value::I64(0)),
        (Value::F64(fl(7.5)), ArithOp::Div, Value::F64(fl(0.0))),
    ];
    for (l, op, r) in pairs {
        let dtype = match l {
            Value::I64(_) => DataType::I64,
            _ => DataType::F64,
        };
        let mut row: u64 = 0;
        let cell = asked(|h| arith_value(&l, op, &r, h, &mut row));
        assert!(cell.same(&Value::Null));
        assert_eq!(row, 1);
        let mut lane: u64 = 0;
        let left = column(dtype, vec![l]);
        let right = column(dtype, vec![r]);
        let out = asked(|h| eval_arith(&left, op, &right, 1, h, &mut lane));
        assert!(out.value_at(0).same(&Value::Null));
        assert_eq!(lane, 1);
    }
}

#[test]
fn a_divisor_that_is_not_zero_counts_nothing() {
    let mut fails: u64 = 0;
    let q = asked(|h| arith_value(&Value::I64(-7), ArithOp::Mod, &Value::I64(2), h, &mut fails));
    assert!(q.same(&Value::I64(-1)));
    let low = asked(|h| arith_value(&Value::I64(i64::MIN), ArithOp::Mod, &Value::I64(-1), h, &mut fails));
    assert!(low.same(&Value::I64(0)));
    let half = asked(|h| arith_value(&Value::I64(1), ArithOp::Div, &Value::I64(2), h, &mut fails));
    assert!(half.same(&Value::F64(fl(0.5))));
    assert_eq!(fails, 0);
}

#[test]
fn chunks_that_are_there_come_in_order() {
    let cells = |n: i64| chunk(n as u64, vec![("a", DataType::I64)], vec![vec![Value::I64(n)]]);
    let mut src = mem_source(vec![cells(4), cells(5)].into());
    assert_eq!(ints(&src.pull().unwrap().columns[0]), vec![4]);
    assert_eq!(ints(&src.pull().unwrap().columns[0]), vec![5]);
    assert!(src.pull().is_none());
}

#[test]
fn a_range_is_read_with_the_types_of_the_file() {
    let part = asked(|h| infer_range(&lines("{\"a\":1}\nbad"), h));
    let other = asked(|h| infer_range(&lines("{\"a\":2.5}"), h));
    let (names, types, bad) = plan_parallel(&vec![part, other]).unwrap();
    assert_eq!(bad, 1);
    let mut src = jsonl_range_source(lines("{\"a\":1}\nbad\n{\"a\":3}"), names, types, 1);
    let mut ctx = OpCtx::new(String::new(), 0);
    let first = asked(|h| src.pull(&mut ctx, h)).unwrap();
    assert!(first.columns[0].value_at(0).same(&Value::F64(fl(1.0))));
    let second = asked(|h| src.pull(&mut ctx, h)).unwrap();
    assert!(second.columns[0].value_at(0).same(&Value::F64(fl(3.0))));
    assert!(asked(|h| src.pull(&mut ctx, h)).is_none());
}

#[test]
fn a_written_row_reads_back() {
    let rows = chunk(
        0,
        vec![("a\n\"b", DataType::Str), ("n", DataType::I64), ("ok", DataType::Bool), ("x", DataType::I64)],
        vec![
            vec![s("tab\there \u{1}")],
            vec![Value::I64(i64::MIN)],
            vec![Value::Bool(false)],
            vec![Value::Null],
        ],
    );
    let line = asked(|h| json_object_row(&rows, 0, h));
    assert!(!line.contains('\n'));
    let chars: Vec<char> = line.chars().collect();
    let back = asked(|h| parse_object(&chars, h)).unwrap();
    assert_eq!(back.len(), 4);
    for (i, (name, cell)) in back.iter().enumerate() {
        assert_eq!(*name, rows.fields[i].name);
        assert!(cell.same(&rows.columns[i].value_at(0)));
    }
}

// ------------------------------------------------------------- exact numbers

#[test]
fn whole_numbers_past_2_pow_53_stay_exact() {
    let n: i64 = 9007199254740993;
    let mut fails = 0u64;
    let sum = asked(|h| arith_value(&Value::I64(n), ArithOp::Add, &Value::I64(2), h, &mut fails));
    assert!(sum.same(&Value::I64(n + 2)));
    let one = asked(|h| arith_value(&Value::I64(n), ArithOp::Sub, &Value::Bool(true), h, &mut fails));
    assert!(one.same(&Value::I64(n - 1)));
    let left = asked(|h| arith_value(&Value::I64(i64::MIN), ArithOp::Mod, &Value::I64(-1), h, &mut fails));
    assert!(left.same(&Value::I64(0)));
    assert_eq!(fails, 0);
    let c = asked(|h| column_from_values(&vec![Value::I64(n), Value::Bool(true), Value::Null], h));
    assert_eq!(c.dtype, DataType::I64);
    assert!(c.value_at(0).same(&Value::I64(n)));
    assert!(c.value_at(1).same(&Value::I64(1)));
    assert!(c.is_null(2));
}

// ------------------------------------------------------------ JSON, the edges

#[test]
fn text_behind_an_object_makes_the_line_malformed() {
    let d = read("{\"a\":1}\n{\"a\":2} junk\n{\"a\":3}  \n");
    assert_eq!(d.bad_rows, 1);
    assert_eq!(ints(&d.columns[0]), vec![1, 3]);
}

#[test]
fn a_first_object_without_names_gives_no_plan() {
    assert!(infer_global(&vec![Vec::new()]).is_none());
    assert!(infer_global(&Vec::new()).is_none());
    let (names, types) = infer_global(&vec![vec![("a".to_string(), Value::I64(1))]]).unwrap();
    assert_eq!(names, vec!["a"]);
    assert_eq!(format!("{:?}", types[0]), "Scalar(I64)");
}

#[test]
fn a_part_keeps_what_it_learns_of_every_name() {
    let a = asked(|h| infer_range(&lines("{\"x\":1}"), h));
    let b = asked(|h| infer_range(&lines("{\"y\":1}\n{\"x\":\"s\"}"), h));
    let (names, types, bad) = plan_parallel(&vec![a, b]).unwrap();
    assert_eq!(names, vec!["x"]);
    assert_eq!(format!("{:?}", types[0]), "Scalar(Str)");
    assert_eq!(bad, 0);
    let (fields, _) =
        asked(|h| JsonlChunker::open(lines("{\"x\":1}\n{\"y\":1}\n{\"x\":\"s\"}"), 9, h)).unwrap();
    assert_eq!(fields.len(), 1);
    assert_eq!(fields[0].dtype, DataType::Str);
    let inner = |n: &str, v: Value| Value::Struct(vec![(n.to_string(), v)]);
    let mut whole = Infer::new();
    let (mut left, mut right) = (Infer::new(), Infer::new());
    for v in [inner("x", Value::I64(1))] {
        whole.observe(&v);
        left.observe(&v);
    }
    for v in [inner("y", Value::I64(1)), inner("x", s("t"))] {
        whole.observe(&v);
        right.observe(&v);
    }
    left.merge(&right);
    assert_eq!(format!("{:?}", left.resolve()), format!("{:?}", whole.resolve()));
}

#[test]
fn balanced_spans_are_skipped_by_their_delimiters() {
    let b: Vec<char> = "[1,[2,\"]\"]]x".chars().collect();
    assert_eq!(skip_balanced(&b, 0, '[', ']'), Some(11));
    let b: Vec<char> = "{\"a\":{\"}\":1}},".chars().collect();
    assert_eq!(skip_balanced(&b, 0, '{', '}'), Some(13));
    let b: Vec<char> = "[1".chars().collect();
    assert_eq!(skip_balanced(&b, 0, '[', ']'), None);
}

// ------------------------------------------------------------------- cutting

fn cut(all: &[(&str, i64)], at: &[usize]) -> Vec<Chunk> {
    let mut out = Vec::new();
    let mut from = 0;
    for to in at.iter().chain([all.len()].iter()) {
        out.push(people(&all[from..*to]));
        from = *to;
    }
    out
}

#[test]
fn another_cut_gives_the_same_groups_and_the_same_order() {
    let all = [("b", 3), ("a", 1), ("b", 2), ("c", 1), ("a", 9)];
    let mut grouped = Vec::new();
    let mut sorted = Vec::new();
    for at in [vec![], vec![1], vec![0, 2, 2, 4]] {
        let mut g = GroupBy::new(
            vec!["name".to_string()],
            vec![AggSpec { func: AggFunc::Max, col: "age".to_string(), label: "max".to_string() }],
        );
        let mut o = Sort::new(vec![("age".to_string(), true)]);
        let mut ctx = OpCtx::new("op".to_string(), 0);
        for c in cut(&all, &at) {
            asked(|h| g.process(&c, &mut ctx, h));
            o.process(c);
        }
        let x = asked(|h| g.finish(&mut ctx, h)).unwrap();
        grouped.push(format!("{:?} {:?}", x.fields, x.columns));
        let y = o.finish(&mut ctx);
        assert_eq!(y.len(), 1);
        sorted.push(format!("{:?} {:?}", y[0].fields, y[0].columns));
    }
    assert_eq!(grouped[0], grouped[1]);
    assert_eq!(grouped[0], grouped[2]);
    assert_eq!(sorted[0], sorted[1]);
    assert_eq!(sorted[0], sorted[2]);
}

#[test]
fn the_least_and_the_greatest_double_survive_a_merge() {
    let vals = vec![
        Value::F64(fl(3.5)),
        Value::F64(fl(f64::NAN)),
        Value::I64(7),
        Value::F64(fl(-2.0)),
        Value::Bool(true),
        Value::F64(fl(0.25)),
    ];
    for parts in [1, 2, 3, 6] {
        let lo = partitioned(AggFunc::Min, &vals, parts);
        let hi = partitioned(AggFunc::Max, &vals, parts);
        assert_eq!(un(asked(|h| lo.num_value(h))), -2.0, "@{parts}");
        assert_eq!(un(asked(|h| hi.num_value(h))), 7.0, "@{parts}");
        let one = single(AggFunc::Min, &vals);
        assert_eq!(asked(|h| lo.num_value(h)).bits, asked(|h| one.num_value(h)).bits);
    }
}

#[test]
fn the_counts_of_groups_add_up_to_the_rows() {
    let all = [("b", 3), ("a", 1), ("b", 2), ("c", 1), ("a", 9), ("b", 4)];
    for at in [vec![], vec![1, 4]] {
        let mut g = GroupBy::new(vec!["name".to_string()], Vec::new());
        let mut ctx = OpCtx::new("g".to_string(), 0);
        for c in cut(&all, &at) {
            asked(|h| g.process(&c, &mut ctx, h));
        }
        let out = asked(|h| g.finish(&mut ctx, h)).unwrap();
        let counts = ints(&out.columns[1]);
        assert_eq!(counts, vec![2, 3, 1]);
        assert_eq!(counts.iter().sum::<i64>(), all.len() as i64);
        assert!(asked(|h| g.finish(&mut ctx, h)).is_none());
    }
}

#[test]
fn a_group_carries_its_sums_on() {
    let sum = AggSpec { func: AggFunc::Sum, col: "x".to_string(), label: "sum".to_string() };
    let mut g = GroupBy::new(vec!["k".to_string()], vec![sum]);
    let mut ctx = OpCtx::new("g".to_string(), 0);
    let rows = |xs: &[f64]| {
        chunk(
            1,
            vec![("k", DataType::Str), ("x", DataType::F64)],
            vec![
                xs.iter().map(|_| s("a")).collect(),
                xs.iter().map(|x| Value::F64(fl(*x))).collect(),
            ],
        )
    };
    asked(|h| g.process(&rows(&[1.5, 2.0]), &mut ctx, h));
    let open = g.settle(&Answers::new()).unwrap_err();
    assert!(matches!(open.op, HostOp::Sums));
    asked(|h| g.settle(h));
    assert!(g.settle(&Answers::new()).is_ok());
    asked(|h| g.process(&rows(&[-0.25]), &mut ctx, h));
    let out = asked(|h| g.finish(&mut ctx, h)).unwrap();
    assert!(out.value(0, 1).same(&Value::I64(3)));
    assert!(out.value(0, 2).same(&Value::F64(fl(3.25))));
}

#[test]
fn a_predicate_compiles_asks_or_has_another_shape() {
    let c = chunk(1, vec![("x", DataType::F64)], vec![vec![Value::F64(fl(1.0))]]);
    let over = |v: Value| Expr::Compare {
        left: field("x"),
        op: CmpOp::Gt,
        right: Box::new(Expr::Literal(v)),
    };
    let none = Answers::new();
    assert!(compile(&Vec::new(), &c, &none).unwrap().is_none());
    let plan = compile(&vec![over(Value::I64(3))], &c, &none).unwrap().unwrap();
    assert_eq!((plan.len(), plan[0].col, un(plan[0].rhs)), (1, 0, 3.0));
    let dec = vec![over(Value::Dec(Decimal::new(15, 1)))];
    assert!(compile(&dec, &c, &none).is_err());
    let plan = asked(|h| compile(&dec, &c, h)).unwrap();
    assert_eq!((un(plan[0].rhs), plan[0].rhs_dec), (1.5, Some(Decimal::new(15, 1))));
    let both = Expr::And(Box::new(over(Value::I64(0))), Box::new(over(Value::I64(1))));
    assert_eq!(compile(&vec![both], &c, &none).unwrap().unwrap().len(), 2);
    let either = Expr::Or(Box::new(over(Value::I64(0))), Box::new(over(Value::I64(1))));
    assert!(compile(&vec![either], &c, &none).unwrap().is_none());
    assert!(compile(&vec![over(s("a"))], &c, &none).unwrap().is_none());
}
