use binning::binning::{bin_intervals, bin_quantiles, bin_ranks, FractionSpec, IntervalSpec};
use binning::dtype::{DataType, FloatType, IntType, TimeUnit};
use binning::method::{BinMethod, BinOptions, HashItem, CHEAP_SERIES_HASH_LIMIT};
use binning::series::Series;
use binning::value::Value;

fn breaks(name: &str, values: &[i128]) -> Series {
    let values = values.iter().map(|v| Some(Value::Int(*v))).collect();
    Series::new(name.to_string(), DataType::Integer(IntType::Int64), values).unwrap()
}

fn float_breaks(values: &[f64]) -> Series {
    let values = values.iter().map(|v| Some(Value::Float(v.to_bits()))).collect();
    Series::new("f".to_string(), DataType::Float(FloatType::Float64), values).unwrap()
}

fn all() -> Vec<BinMethod> {
    vec![
        BinMethod::Intervals { breaks: breaks("b", &[1, 2, 3]), right_closed: false },
        BinMethod::UniformIntervals { n_bins: 7, right_closed: true },
        BinMethod::Quantiles { probs: vec![0.25f64.to_bits()], right_closed: false },
        BinMethod::UniformQuantiles { n_bins: 5, right_closed: false },
        BinMethod::Ranks { fractions: vec![0.5f64.to_bits(), 0.75f64.to_bits()] },
        BinMethod::UniformRanks { n_bins: 6 },
    ]
}

#[test]
fn methods_describe_themselves() {
    let methods = all();
    let names: Vec<&str> = methods.iter().map(|m| m.name()).collect();
    assert_eq!(
        names,
        vec![
            "bin_intervals",
            "bin_intervals",
            "bin_quantiles",
            "bin_quantiles",
            "bin_ranks",
            "bin_ranks"
        ]
    );
    let bins: Vec<usize> = methods.iter().map(|m| m.n_bins()).collect();
    assert_eq!(bins, vec![4, 7, 2, 5, 3, 6]);
    let numeric: Vec<bool> = methods.iter().map(|m| m.requires_numeric_input()).collect();
    assert_eq!(numeric, vec![false, true, true, true, false, false]);
    assert!(methods[0].breaks().is_some());
    assert!(methods[1..].iter().all(|m| m.breaks().is_none()));
}

#[test]
fn bounds_are_of_the_breaks_or_of_the_input() {
    let input = DataType::Date;
    for (i, method) in all().iter().enumerate() {
        let expected = if i == 0 { DataType::Integer(IntType::Int64) } else { DataType::Date };
        assert_eq!(method.bound_dtype(&input), expected);
    }
}

#[test]
fn methods_are_hashed_by_what_they_are_made_of() {
    let methods = all();
    assert_eq!(
        methods[0].hash_items(),
        vec![
            HashItem::Form(0),
            HashItem::Kind(9),
            HashItem::Count(3),
            HashItem::Integer { negative: false, magnitude: 1 },
            HashItem::Integer { negative: false, magnitude: 2 },
            HashItem::Integer { negative: false, magnitude: 3 },
            HashItem::Flag(false),
        ]
    );
    assert_eq!(
        methods[2].hash_items(),
        vec![
            HashItem::Form(2),
            HashItem::Count(1),
            HashItem::Bits(0.25f64.to_bits()),
            HashItem::Flag(false),
        ]
    );
    assert_eq!(methods[5].hash_items(), vec![HashItem::Form(5), HashItem::Count(6)]);
    for (i, a) in methods.iter().enumerate() {
        for (j, b) in methods.iter().enumerate() {
            assert_eq!(a.equals(b), i == j);
            assert_eq!(a.hash_items() == b.hash_items(), i == j);
        }
    }
}

#[test]
fn equal_breaks_hash_equally() {
    let a = BinMethod::Intervals { breaks: breaks("x", &[-1, 5]), right_closed: true };
    let unsigned = vec![Some(Value::Int(-1)), Some(Value::UInt(5))];
    let unsigned =
        Series::new("y".to_string(), DataType::Integer(IntType::Int64), unsigned).unwrap();
    let b = BinMethod::Intervals { breaks: unsigned, right_closed: true };
    assert!(a.equals(&b));
    assert_eq!(a.hash_items(), b.hash_items());
    let c = BinMethod::Intervals { breaks: float_breaks(&[0.0, f64::NAN]), right_closed: true };
    let d = BinMethod::Intervals { breaks: float_breaks(&[-0.0, -f64::NAN]), right_closed: true };
    assert!(c.equals(&d));
    assert_eq!(c.hash_items(), d.hash_items());
    assert_ne!(a.hash_items(), c.hash_items());
    assert!(a.clone().equals(&a));
}

#[test]
fn hashing_is_bounded() {
    let long: Vec<i128> = (0..5000).collect();
    let a = BinMethod::Intervals { breaks: breaks("x", &long), right_closed: false };
    assert_eq!(a.hash_items().len(), CHEAP_SERIES_HASH_LIMIT + 4);
    let mut other = long.clone();
    other[4999] = 1_000_000;
    let b = BinMethod::Intervals { breaks: breaks("x", &other), right_closed: false };
    assert!(!a.equals(&b));
    assert_eq!(a.hash_items(), b.hash_items());
}

#[test]
fn fractions_compare_as_numbers() {
    let quantiles = |p: f64| BinMethod::Quantiles { probs: vec![p.to_bits()], right_closed: false };
    assert!(quantiles(0.5).equals(&quantiles(0.5)));
    assert!(!quantiles(0.5).equals(&quantiles(0.25)));
    assert!(!quantiles(f64::NAN).equals(&quantiles(f64::NAN)));
    assert!(quantiles(0.0).equals(&quantiles(-0.0)));
    assert_ne!(quantiles(0.0).hash_items(), quantiles(-0.0).hash_items());
}

#[test]
fn options_are_compared_and_hashed_as_a_whole() {
    let options = |labels: Option<Vec<String>>, include_intervals: bool| BinOptions {
        method: BinMethod::UniformRanks { n_bins: 2 },
        labels,
        include_intervals,
    };
    let names = Some(vec!["a".to_string(), "b".to_string()]);
    let plain = options(None, false);
    let labelled = options(names.clone(), false);
    assert!(plain.equals(&plain.clone()));
    assert!(labelled.equals(&options(names, false)));
    assert!(!plain.equals(&labelled));
    assert!(!plain.equals(&options(None, true)));
    assert_eq!(
        plain.hash_items(),
        vec![
            HashItem::Form(5),
            HashItem::Count(2),
            HashItem::Flag(false),
            HashItem::Flag(false),
        ]
    );
    assert_eq!(
        labelled.hash_items(),
        vec![
            HashItem::Form(5),
            HashItem::Count(2),
            HashItem::Flag(true),
            HashItem::Count(2),
            HashItem::Text("a".to_string()),
            HashItem::Text("b".to_string()),
            HashItem::Flag(false),
        ]
    );
}

#[test]
fn a_method_takes_as_many_labels_as_it_has_bins() {
    let s = breaks("s", &[4, 8, 15, 16, 23, 42]);
    for method in all() {
        for n in 1..9 {
            let names: Vec<String> = (0..n).map(|i| format!("bin {}", i)).collect();
            let names = Some(names.as_slice());
            let binned = match &method {
                BinMethod::Intervals { breaks, right_closed } => {
                    bin_intervals(&s, IntervalSpec::Breaks(breaks), names, false, *right_closed)
                },
                BinMethod::UniformIntervals { n_bins, right_closed } => {
                    bin_intervals(&s, IntervalSpec::Count(*n_bins), names, false, *right_closed)
                },
                BinMethod::Quantiles { right_closed, .. } => {
                    bin_quantiles(&s, FractionSpec::Explicit(&[1]), names, false, *right_closed)
                },
                BinMethod::UniformQuantiles { n_bins, right_closed } => {
                    bin_quantiles(&s, FractionSpec::Count(*n_bins), names, false, *right_closed)
                },
                BinMethod::Ranks { .. } => {
                    bin_ranks(&s, FractionSpec::Explicit(&[3, 5]), names, false)
                },
                BinMethod::UniformRanks { n_bins } => {
                    bin_ranks(&s, FractionSpec::Count(*n_bins), names, false)
                },
            };
            assert_eq!(binned.is_ok(), n == method.n_bins());
        }
    }
}

fn one_break(dtype: DataType) -> BinMethod {
    let values = vec![Some(Value::Int(-100)), None];
    let breaks = Series::new("b".to_string(), dtype, values).unwrap();
    BinMethod::Intervals { breaks, right_closed: true }
}

#[test]
fn what_a_value_carries_is_hashed_with_it() {
    let decimal = |precision: usize, scale: usize| DataType::Decimal { precision, scale };
    assert_eq!(
        one_break(decimal(10, 2)).hash_items(),
        vec![
            HashItem::Form(0),
            HashItem::Kind(14),
            HashItem::Count(2),
            HashItem::Decimal { negative: true, magnitude: 100, precision: 10, scale: 2 },
            HashItem::Null,
            HashItem::Flag(true),
        ]
    );
    let zoned = |zone: Option<&str>, unit: TimeUnit| DataType::Datetime {
        unit,
        zone: zone.map(String::from),
    };
    let dtypes = vec![
        decimal(10, 2),
        decimal(10, 3),
        decimal(11, 2),
        zoned(None, TimeUnit::Nanoseconds),
        zoned(None, TimeUnit::Milliseconds),
        zoned(Some("UTC"), TimeUnit::Nanoseconds),
        DataType::Duration(TimeUnit::Nanoseconds),
        DataType::Duration(TimeUnit::Microseconds),
        DataType::Integer(IntType::Int64),
        DataType::Integer(IntType::Int32),
        DataType::Date,
    ];
    for (i, a) in dtypes.iter().enumerate() {
        for (j, b) in dtypes.iter().enumerate() {
            let (a, b) = (one_break(a.clone()), one_break(b.clone()));
            assert_eq!(a.hash_items() == b.hash_items(), i == j);
        }
    }
}

#[test]
fn breaks_of_two_types_are_equal_but_hash_by_their_type() {
    let wide = one_break(DataType::Integer(IntType::Int64));
    let narrow = one_break(DataType::Integer(IntType::Int32));
    assert!(wide.is_comparable(&narrow));
    assert!(wide.equals(&narrow));
    assert_ne!(wide.hash_items(), narrow.hash_items());
    assert!(!wide.is_comparable(&one_break(DataType::Date)));
}
