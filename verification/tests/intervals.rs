use binning::binning::{
    bin_cast_intervals, bin_intervals, bin_uniform_intervals, bins_from_breaks, IntervalSpec,
};
use binning::casting::cast_exact;
use binning::dtype::{DataType, FloatType, IntType};
use binning::error::{BinError, BinForm};
use binning::intervals::{uniform_integer_thresholds, uniform_interval_breaks};
use binning::ordered_bits::OrderedBits;
use binning::output::Column;
use binning::search::{is_ascending, search_sorted, SearchSortedSide};
use binning::series::Series;
use binning::sorting::arg_sort;
use binning::value::Value;

fn column(name: &str, dtype: DataType, values: Vec<Option<Value>>) -> Series {
    Series::new(name.to_string(), dtype, values).expect("a valid column")
}

fn ints(name: &str, t: IntType, values: &[Option<i128>]) -> Series {
    let values = values.iter().map(|v| v.map(Value::Int)).collect();
    column(name, DataType::Integer(t), values)
}

fn i64s(values: &[Option<i128>]) -> Series {
    ints("a", IntType::Int64, values)
}

fn floats(name: &str, values: &[f64]) -> Series {
    let values = values.iter().map(|v| Some(Value::Float(v.to_bits()))).collect();
    column(name, DataType::Float(FloatType::Float64), values)
}

fn strings(name: &str, values: &[Option<&str>]) -> Series {
    let values = values.iter().map(|v| v.map(|s| Value::Bytes(s.as_bytes().to_vec()))).collect();
    column(name, DataType::String, values)
}

fn decimals(precision: usize, scale: usize, values: &[Option<i128>]) -> Series {
    let values = values.iter().map(|v| v.map(Value::Int)).collect();
    column("d", DataType::Decimal { precision, scale }, values)
}

fn numbers(s: &Series) -> Vec<Option<i128>> {
    (0..s.len())
        .map(|i| {
            s.get(i).map(|v| match v {
                Value::Int(x) => *x,
                Value::UInt(x) => *x as i128,
                _ => panic!("not an integer"),
            })
        })
        .collect()
}

fn labels(texts: &[&str]) -> Vec<String> {
    texts.iter().map(|t| t.to_string()).collect()
}

fn plain(binned: Result<Column, BinError>) -> Series {
    match binned {
        Ok(Column::Series(s)) => s,
        other => panic!("not a plain column: {:?}", other),
    }
}

fn parts(binned: Result<Column, BinError>) -> (String, Series, Series, Series) {
    match binned {
        Ok(Column::Struct { name, bin, left, right }) => (name, bin, left, right),
        other => panic!("not a struct: {:?}", other),
    }
}

#[test]
fn breaks_close_on_the_left_or_on_the_right() {
    let s = i64s(&[Some(0), Some(1), Some(2), None, Some(3), Some(4), Some(9)]);
    let breaks = ints("breaks", IntType::Int64, &[Some(1), Some(3)]);
    let left = bins_from_breaks(&s, &breaks, false).unwrap();
    assert_eq!(left.name, "a");
    assert_eq!(
        left.values,
        vec![Some(0), Some(1), Some(1), None, Some(2), Some(2), Some(2)]
    );
    let right = bins_from_breaks(&s, &breaks, true).unwrap();
    assert_eq!(
        right.values,
        vec![Some(0), Some(0), Some(1), None, Some(1), Some(2), Some(2)]
    );
}

#[test]
fn sides_differ_by_the_breaks_that_equal_the_value() {
    let s = i64s(&[Some(5), Some(6)]);
    let breaks = ints("breaks", IntType::Int64, &[Some(5), Some(5), Some(5), Some(7)]);
    assert_eq!(bins_from_breaks(&s, &breaks, true).unwrap().values, vec![Some(0), Some(3)]);
    assert_eq!(bins_from_breaks(&s, &breaks, false).unwrap().values, vec![Some(3), Some(3)]);
}

#[test]
fn searching_gives_a_null_a_position_too() {
    let breaks = i64s(&[Some(1), Some(3)]);
    let needles = i64s(&[Some(3), None, Some(0)]);
    assert_eq!(search_sorted(&breaks, &needles, SearchSortedSide::Left), vec![1, 0, 0]);
    assert_eq!(search_sorted(&breaks, &needles, SearchSortedSide::Right), vec![2, 0, 0]);
}

#[test]
fn breaks_of_another_data_type_are_refused() {
    let s = i64s(&[Some(1)]);
    let breaks = ints("breaks", IntType::Int32, &[Some(1)]);
    match bins_from_breaks(&s, &breaks, false) {
        Err(BinError::DtypeMismatch { expected, got }) => {
            assert_eq!(expected, DataType::Integer(IntType::Int64));
            assert_eq!(got, DataType::Integer(IntType::Int32));
        },
        other => panic!("not refused: {:?}", other),
    }
    assert!(matches!(
        bin_cast_intervals(&s, &breaks, None, false, false),
        Err(BinError::DtypeMismatch { .. })
    ));
}

#[test]
fn a_nan_lands_in_the_last_bin() {
    let s = floats("f", &[f64::NAN, f64::NEG_INFINITY, -0.0, 0.0, f64::INFINITY]);
    let breaks = floats("breaks", &[0.0, 10.0]);
    for right_closed in [false, true] {
        let bins = bins_from_breaks(&s, &breaks, right_closed).unwrap().values;
        let zero = if right_closed { 0 } else { 1 };
        assert_eq!(bins, vec![Some(2), Some(0), Some(zero), Some(zero), Some(2)]);
    }
    let nan_break = floats("breaks", &[f64::NAN]);
    assert_eq!(bins_from_breaks(&s, &nan_break, true).unwrap().values[0], Some(0));
    assert_eq!(bins_from_breaks(&s, &nan_break, false).unwrap().values[0], Some(1));
}

#[test]
fn strings_are_binned_in_lexicographic_order() {
    let s = strings("s", &[Some("b"), Some("a"), None, Some("ba"), Some("")]);
    let breaks = strings("breaks", &[Some("b")]);
    let bin = plain(bin_intervals(&s, IntervalSpec::Breaks(&breaks), None, false, false));
    assert_eq!(numbers(&bin), vec![Some(1), Some(0), None, Some(1), Some(0)]);
    assert_eq!(bin.name(), "s");
    assert_eq!(*bin.dtype(), DataType::Integer(IntType::UInt32));
}

#[test]
fn an_enum_is_binned_in_the_order_of_its_variants() {
    let dtype = DataType::Enum(labels(&["low", "high", "extreme"]));
    let codes = |codes: &[u128]| codes.iter().map(|c| Some(Value::UInt(*c))).collect();
    let s = column("e", dtype.clone(), codes(&[2, 0, 1]));
    let breaks = column("breaks", dtype, codes(&[1]));
    let bin = plain(bin_intervals(&s, IntervalSpec::Breaks(&breaks), None, false, false));
    assert_eq!(numbers(&bin), vec![Some(1), Some(0), Some(1)]);
}

#[test]
fn explicit_breaks_report_their_bounds() {
    let s = i64s(&[Some(0), Some(2), None, Some(9)]);
    let breaks = ints("breaks", IntType::Int64, &[Some(1), Some(3)]);
    let (name, bin, left, right) =
        parts(bin_intervals(&s, IntervalSpec::Breaks(&breaks), None, true, false));
    assert_eq!(name, "a");
    assert_eq!((bin.name().as_str(), left.name().as_str()), ("bin", "left"));
    assert_eq!(right.name(), "right");
    assert_eq!(numbers(&bin), vec![Some(0), Some(1), None, Some(2)]);
    assert_eq!(numbers(&left), vec![None, Some(1), None, Some(3)]);
    assert_eq!(numbers(&right), vec![Some(1), Some(3), None, None]);
    assert_eq!(*left.dtype(), DataType::Integer(IntType::Int64));
    assert_eq!(*right.dtype(), DataType::Integer(IntType::Int64));
}

#[test]
fn labels_make_an_enum() {
    let s = i64s(&[Some(0), None, Some(5)]);
    let breaks = i64s(&[Some(1)]);
    let names = labels(&["small", "large"]);
    let bin = plain(bin_intervals(&s, IntervalSpec::Breaks(&breaks), Some(&names), false, false));
    assert_eq!(*bin.dtype(), DataType::Enum(names));
    assert_eq!(numbers(&bin), vec![Some(0), None, Some(1)]);
}

#[test]
fn labels_must_match_the_number_of_bins() {
    let s = i64s(&[Some(0)]);
    let breaks = i64s(&[Some(1)]);
    let names = labels(&["only"]);
    match bin_intervals(&s, IntervalSpec::Breaks(&breaks), Some(&names), true, false) {
        Err(BinError::LabelCount { n_bins, labels }) => assert_eq!((n_bins, labels), (2, 1)),
        other => panic!("not refused: {:?}", other),
    }
}

#[test]
fn labels_must_differ() {
    let s = i64s(&[Some(0)]);
    let breaks = i64s(&[Some(1)]);
    let names = labels(&["same", "same"]);
    assert!(matches!(
        bin_intervals(&s, IntervalSpec::Breaks(&breaks), Some(&names), false, false),
        Err(BinError::Labels(_))
    ));
}

#[test]
fn a_column_is_widened_to_its_breaks() {
    let s = ints("n", IntType::UInt8, &[Some(3), None, Some(255)]);
    let breaks = ints("breaks", IntType::Int64, &[Some(-1), Some(200)]);
    let (_, bin, left, right) =
        parts(bin_intervals(&s, IntervalSpec::Breaks(&breaks), None, true, true));
    assert_eq!(numbers(&bin), vec![Some(1), None, Some(2)]);
    assert_eq!(numbers(&left), vec![Some(-1), None, Some(200)]);
    assert_eq!(numbers(&right), vec![Some(200), None, None]);
    assert_eq!(*left.dtype(), DataType::Integer(IntType::Int64));
}

#[test]
fn an_integer_meets_decimal_breaks() {
    let s = i64s(&[Some(1), Some(2)]);
    let breaks = decimals(10, 1, &[Some(15)]);
    let bin = plain(bin_intervals(&s, IntervalSpec::Breaks(&breaks), None, false, false));
    assert_eq!(numbers(&bin), vec![Some(0), Some(1)]);
}

#[test]
fn casting_drops_what_does_not_fit() {
    let s = i64s(&[Some(300), Some(7), None, Some(-1)]);
    let cast = cast_exact(&s, &DataType::Integer(IntType::UInt8)).unwrap();
    assert_eq!(numbers(&cast), vec![None, Some(7), None, None]);
    assert_eq!(cast.name(), "a");
    let cast = cast_exact(&s, &DataType::Decimal { precision: 3, scale: 1 }).unwrap();
    assert_eq!(numbers(&cast), vec![None, Some(70), None, Some(-10)]);
}

#[test]
fn casting_unsigned_integers_above_the_signed_range() {
    let s = column(
        "u",
        DataType::Integer(IntType::UInt128),
        vec![Some(Value::UInt(u128::MAX)), Some(Value::UInt(4))],
    );
    let cast = cast_exact(&s, &DataType::Integer(IntType::Int128)).unwrap();
    assert_eq!(numbers(&cast), vec![None, Some(4)]);
    let same = cast_exact(&s, &DataType::Integer(IntType::UInt128)).unwrap();
    assert!(same.equals_missing(&s));
}

#[test]
fn casting_decimals_rounds_half_to_even() {
    let s = decimals(10, 2, &[Some(125), Some(135), Some(-125), Some(-126), Some(50), Some(150)]);
    let cast = cast_exact(&s, &DataType::Decimal { precision: 10, scale: 1 }).unwrap();
    assert_eq!(
        numbers(&cast),
        vec![Some(12), Some(14), Some(-12), Some(-13), Some(5), Some(15)]
    );
    let cast = cast_exact(&s, &DataType::Integer(IntType::Int8)).unwrap();
    assert_eq!(
        numbers(&cast),
        vec![Some(1), Some(1), Some(-1), Some(-1), Some(0), Some(2)]
    );
    let cast = cast_exact(&s, &DataType::Decimal { precision: 12, scale: 4 }).unwrap();
    assert_eq!(
        numbers(&cast),
        vec![Some(12500), Some(13500), Some(-12500), Some(-12600), Some(5000), Some(15000)]
    );
    let cast = cast_exact(&s, &DataType::Decimal { precision: 2, scale: 2 }).unwrap();
    assert_eq!(numbers(&cast), vec![None, None, None, None, Some(50), None]);
}

#[test]
fn thresholds_round_towards_the_open_side() {
    assert_eq!(uniform_integer_thresholds(0i32, 10i32, 3, false), vec![4, 7]);
    assert_eq!(uniform_integer_thresholds(0i32, 10i32, 3, true), vec![3, 6]);
    assert_eq!(uniform_integer_thresholds(-5i8, 5i8, 2, false), vec![0]);
    assert_eq!(uniform_integer_thresholds(0u8, 255u8, 4, false), vec![64, 128, 192]);
    assert_eq!(uniform_integer_thresholds(0u8, 255u8, 4, true), vec![63, 127, 191]);
    assert_eq!(uniform_integer_thresholds(7u16, 7u16, 3, false), vec![7, 7]);
    assert_eq!(uniform_integer_thresholds(1i64, 9i64, 1, false), Vec::<i64>::new());
}

#[test]
fn thresholds_span_whole_types() {
    assert_eq!(uniform_integer_thresholds(i64::MIN, i64::MAX, 2, false), vec![0]);
    assert_eq!(uniform_integer_thresholds(i64::MIN, i64::MAX, 2, true), vec![-1]);
    assert_eq!(uniform_integer_thresholds(i128::MIN, i128::MAX, 2, false), vec![0]);
    assert_eq!(uniform_integer_thresholds(0u128, u128::MAX, 2, true), vec![u128::MAX / 2]);
}

#[test]
fn ordered_bits_keep_order_and_value() {
    assert_eq!(i8::MIN.to_ordered(), 0);
    assert_eq!((-1i8).to_ordered(), 127);
    assert_eq!(i8::MAX.to_ordered(), 255);
    assert_eq!(i64::MIN.to_ordered(), 0);
    assert_eq!(i128::MAX.to_ordered(), u128::MAX);
    for x in [i16::MIN, -3, 0, 4, i16::MAX] {
        assert_eq!(i16::from_ordered(x.to_ordered()), x);
    }
    for x in [0u32, 5, u32::MAX] {
        assert_eq!(u32::from_ordered(x.to_ordered()), x);
    }
    assert_eq!(u8::from_ordered(0x1ff), 0xff);
}

#[test]
fn equal_width_bins_over_integers() {
    let s = i64s(&[Some(0), Some(3), Some(4), Some(6), Some(7), None, Some(10)]);
    let left = plain(bin_intervals(&s, IntervalSpec::Count(3), None, false, false));
    assert_eq!(
        numbers(&left),
        vec![Some(0), Some(0), Some(1), Some(1), Some(2), None, Some(2)]
    );
    let right = plain(bin_intervals(&s, IntervalSpec::Count(3), None, false, true));
    assert_eq!(
        numbers(&right),
        vec![Some(0), Some(0), Some(1), Some(1), Some(2), None, Some(2)]
    );
    let (_, _, lower, upper) = parts(bin_intervals(&s, IntervalSpec::Count(3), None, true, true));
    assert_eq!(
        numbers(&lower),
        vec![None, None, Some(3), Some(3), Some(6), None, Some(6)]
    );
    assert_eq!(
        numbers(&upper),
        vec![Some(3), Some(3), Some(6), Some(6), None, None, None]
    );
}

#[test]
fn equal_width_bins_over_decimals_keep_precision_and_scale() {
    let s = decimals(6, 2, &[Some(100), Some(401), None]);
    let breaks = uniform_interval_breaks(&s, 2, false);
    assert_eq!(numbers(&breaks), vec![Some(251)]);
    assert_eq!(*breaks.dtype(), DataType::Decimal { precision: 6, scale: 2 });
    assert_eq!(breaks.name(), "d");
    let bin = plain(bin_intervals(&s, IntervalSpec::Count(2), None, false, false));
    assert_eq!(numbers(&bin), vec![Some(0), Some(1), None]);
}

#[test]
fn one_bin_takes_everything_but_nulls() {
    let s = i64s(&[Some(4), None, Some(-4)]);
    let bin = plain(bin_intervals(&s, IntervalSpec::Count(1), None, false, false));
    assert_eq!(numbers(&bin), vec![Some(0), None, Some(0)]);
}

#[test]
fn no_values_give_null_bins_of_the_same_shape() {
    for s in [i64s(&[]), i64s(&[None, None])] {
        let names = labels(&["x", "y", "z"]);
        let (name, bin, left, right) =
            parts(bin_intervals(&s, IntervalSpec::Count(3), Some(&names), true, false));
        assert_eq!(name, "a");
        assert_eq!(numbers(&bin), vec![None; s.len()]);
        assert_eq!(numbers(&left), vec![None; s.len()]);
        assert_eq!(numbers(&right), vec![None; s.len()]);
        assert_eq!(*bin.dtype(), DataType::Enum(names));
        assert_eq!(*left.dtype(), DataType::Integer(IntType::Int64));
        assert_eq!(*right.dtype(), DataType::Integer(IntType::Int64));
    }
}

#[test]
fn interval_binning_needs_a_bin() {
    let names = labels(&["one"]);
    for s in [i64s(&[Some(1)]), floats("f", &[1.5]), strings("s", &[None])] {
        assert!(matches!(
            bin_intervals(&s, IntervalSpec::Count(0), None, false, false),
            Err(BinError::NoBins(BinForm::Intervals))
        ));
        assert!(matches!(
            bin_intervals(&s, IntervalSpec::Count(0), Some(&names), true, true),
            Err(BinError::NoBins(BinForm::Intervals))
        ));
    }
}

#[test]
fn float_breaks_derived_elsewhere() {
    let s = floats("f", &[0.0, 2.4, 2.5, f64::NAN, 5.0]);
    let breaks = floats("f", &[2.5]);
    let bin = plain(bin_uniform_intervals(&s, &breaks, None, false, false));
    assert_eq!(
        numbers(&bin),
        vec![Some(0), Some(0), Some(1), Some(1), Some(1)]
    );
    let missing = column("f", DataType::Float(FloatType::Float64), vec![None]);
    let bin = plain(bin_uniform_intervals(&s, &missing, None, false, false));
    assert_eq!(numbers(&bin), vec![None; 5]);
}

#[test]
fn columns_refuse_what_does_not_fit() {
    let t = DataType::Integer(IntType::Int8);
    assert!(Series::new("a".to_string(), t, vec![Some(Value::Int(128))]).is_none());
    let d = DataType::Decimal { precision: 2, scale: 0 };
    assert!(Series::new("a".to_string(), d.clone(), vec![Some(Value::Int(100))]).is_none());
    assert!(Series::new("a".to_string(), d, vec![Some(Value::Int(-99))]).is_some());
    let wide = DataType::Decimal { precision: 39, scale: 0 };
    assert!(Series::new("a".to_string(), wide, vec![]).is_none());
}

#[test]
fn breakpoints_ascend_without_nulls() {
    assert!(is_ascending(&i64s(&[])));
    assert!(is_ascending(&i64s(&[Some(-2), Some(1), Some(1)])));
    assert!(!is_ascending(&i64s(&[Some(1), Some(0)])));
    assert!(!is_ascending(&i64s(&[Some(1), None])));
    assert!(is_ascending(&floats("f", &[-0.0, 0.0, -0.0, f64::INFINITY, f64::NAN])));
    assert!(!is_ascending(&strings("s", &[Some("b"), Some("a")])));
}

#[test]
fn bins_never_descend_along_the_sorted_order() {
    let values: Vec<Option<i128>> =
        (0..60).map(|i| if i % 11 == 0 { None } else { Some((i * 37) % 50 - 20) }).collect();
    let s = i64s(&values);
    let breaks = i64s(&[Some(-10), Some(0), Some(3), Some(3), Some(17)]);
    for right_closed in [false, true] {
        let bins = bins_from_breaks(&s, &breaks, right_closed).unwrap().values;
        let sorted: Vec<Option<u32>> = arg_sort(&s).iter().map(|i| bins[*i as usize]).collect();
        let valid = sorted.iter().filter(|b| b.is_some()).count();
        assert!(sorted[..valid].windows(2).all(|pair| pair[0] <= pair[1]));
        assert!(sorted[valid..].iter().all(|b| b.is_none()));
    }
}

#[test]
fn every_value_lies_within_its_bounds() {
    let s = i64s(&[Some(-9), Some(-3), Some(0), Some(5), Some(6), Some(7)]);
    for right_closed in [false, true] {
        let binned = bin_intervals(&s, IntervalSpec::Count(4), None, true, right_closed);
        let (_, bin, left, right) = parts(binned);
        let (bin, left, right) = (numbers(&bin), numbers(&left), numbers(&right));
        for (i, value) in numbers(&s).into_iter().enumerate() {
            let x = value.unwrap();
            assert_eq!(left[i].is_none(), bin[i] == Some(0));
            assert_eq!(right[i].is_none(), bin[i] == Some(3));
            assert!(left[i].map_or(true, |l| if right_closed { l < x } else { l <= x }));
            assert!(right[i].map_or(true, |r| if right_closed { x <= r } else { x < r }));
        }
    }
}

#[test]
fn floats_are_widened_to_their_breaks() {
    let bits = |x: f32| Some(Value::Float((x as f64).to_bits()));
    let narrow = DataType::Float(FloatType::Float32);
    let s = column("n", narrow, vec![bits(0.1), bits(0.5), None, bits(f32::NAN)]);
    let breaks = floats("breaks", &[0.1, 0.5]);
    let (_, bin, left, _) =
        parts(bin_intervals(&s, IntervalSpec::Breaks(&breaks), None, true, false));
    assert_eq!(numbers(&bin), vec![Some(1), Some(2), None, Some(2)]);
    assert_eq!(*left.dtype(), DataType::Float(FloatType::Float64));
    assert_eq!(left.get(0), Some(&Value::Float(0.1f64.to_bits())));
}

#[test]
fn equal_width_breaks_rest_on_the_range() {
    let s = i64s(&[Some(-4), Some(0), None, Some(9)]);
    let t = i64s(&[Some(9), Some(9), Some(3), Some(-4), Some(2)]);
    for n in 1..7 {
        for right_closed in [false, true] {
            let a = uniform_interval_breaks(&s, n, right_closed);
            let b = uniform_interval_breaks(&t, n, right_closed);
            assert_eq!(a.name(), b.name());
            assert!(a.equals_missing(&b));
            assert!(is_ascending(&a));
            assert!(numbers(&a).iter().all(|x| (-4..=9).contains(&x.unwrap())));
        }
    }
}

#[test]
fn a_number_of_bins_is_the_breaks_derived_for_it() {
    let s = i64s(&[Some(-4), Some(0), None, Some(9), Some(3)]);
    for n in 1..7 {
        for right_closed in [false, true] {
            let breaks = uniform_interval_breaks(&s, n, right_closed);
            let counted = bin_intervals(&s, IntervalSpec::Count(n), None, true, right_closed);
            let (_, bin, left, right) = parts(counted);
            let spelled =
                bin_intervals(&s, IntervalSpec::Breaks(&breaks), None, true, right_closed);
            let (_, other_bin, other_left, other_right) = parts(spelled);
            assert_eq!(numbers(&bin), numbers(&other_bin));
            assert_eq!(numbers(&left), numbers(&other_left));
            assert_eq!(numbers(&right), numbers(&other_right));
        }
    }
}

#[test]
fn exact_numbers_of_different_types_are_compared_by_value() {
    let wide = i64s(&[Some(1), None, Some(-20)]);
    let narrow = ints("n", IntType::Int32, &[Some(1), None, Some(-20)]);
    let decimal = decimals(6, 2, &[Some(100), None, Some(-2000)]);
    let finer = decimals(38, 4, &[Some(10000), None, Some(-200000)]);
    for a in [&wide, &narrow, &decimal, &finer] {
        for b in [&wide, &narrow, &decimal, &finer] {
            assert!(a.dtype().is_comparable(b.dtype()));
            assert!(a.equals_missing(b));
        }
    }
    assert!(!wide.equals_missing(&decimals(6, 2, &[Some(101), None, Some(-2000)])));
    assert!(!wide.equals_missing(&decimals(6, 2, &[Some(100), None, Some(2000)])));
    assert!(!decimal.equals_missing(&decimals(6, 3, &[Some(1000), Some(0), Some(-20000)])));
    assert!(!decimals(6, 3, &[Some(1001)]).equals_missing(&decimals(6, 2, &[Some(100)])));
    let large = column(
        "u",
        DataType::Integer(IntType::UInt128),
        vec![Some(Value::UInt(u128::MAX))],
    );
    assert!(!large.equals_missing(&i64s(&[Some(-1)])));
    assert!(!large.equals_missing(&decimals(38, 38, &[Some(1)])));
    let unsigned = ints("u", IntType::UInt64, &[Some(1)]);
    assert!(!unsigned.dtype().is_comparable(wide.dtype()));
    assert!(unsigned.dtype().is_comparable(large.dtype()));
    assert!(!unsigned.dtype().is_comparable(floats("f", &[]).dtype()));
}
