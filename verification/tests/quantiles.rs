use binning::binning::{bin_quantiles, FractionSpec};
use binning::dtype::{DataType, FloatType, IntType};
use binning::error::{BinError, BinForm};
use binning::output::Column;
use binning::positions::quantile_break_positions_uniform;
use binning::series::Series;
use binning::value::Value;

fn ints(values: &[Option<i128>]) -> Series {
    let values = values.iter().map(|v| v.map(Value::Int)).collect();
    Series::new("q".to_string(), DataType::Integer(IntType::Int32), values).unwrap()
}

fn numbers(s: &Series) -> Vec<Option<i128>> {
    (0..s.len())
        .map(|i| {
            s.get(i).map(|v| match v {
                Value::Int(x) => *x,
                Value::UInt(x) => *x as i128,
                _ => panic!("not an integer"),
            })
        })
        .collect()
}

fn plain(binned: Result<Column, BinError>) -> Series {
    match binned {
        Ok(Column::Series(s)) => s,
        other => panic!("not a plain column: {:?}", other),
    }
}

fn parts(binned: Result<Column, BinError>) -> (String, Series, Series, Series) {
    match binned {
        Ok(Column::Struct { name, bin, left, right }) => (name, bin, left, right),
        other => panic!("not a struct: {:?}", other),
    }
}

#[test]
fn positions_are_exact() {
    let positions = quantile_break_positions_uniform(91, 10);
    assert_eq!(positions, vec![9, 18, 27, 36, 45, 54, 63, 72, 81]);
    assert_eq!(quantile_break_positions_uniform(5, 4), vec![1, 2, 3]);
    assert_eq!(quantile_break_positions_uniform(4, 3), vec![1, 2]);
    assert_eq!(quantile_break_positions_uniform(0, 3), vec![0, 0]);
    assert_eq!(quantile_break_positions_uniform(3, 1), Vec::<u32>::new());
    assert_eq!(quantile_break_positions_uniform(3, 0), Vec::<u32>::new());
}

#[test]
fn equiprobable_bins() {
    let s = ints(&[Some(40), Some(10), None, Some(30), Some(20), Some(50)]);
    let left = plain(bin_quantiles(&s, FractionSpec::Count(4), None, false, false));
    assert_eq!(
        numbers(&left),
        vec![Some(3), Some(0), None, Some(2), Some(1), Some(3)]
    );
    let right = plain(bin_quantiles(&s, FractionSpec::Count(4), None, false, true));
    assert_eq!(
        numbers(&right),
        vec![Some(2), Some(0), None, Some(1), Some(0), Some(3)]
    );
}

#[test]
fn equiprobable_bins_report_gathered_values() {
    let s = ints(&[Some(40), Some(10), None, Some(30), Some(20), Some(50)]);
    let (name, bin, left, right) =
        parts(bin_quantiles(&s, FractionSpec::Count(2), None, true, false));
    assert_eq!(name, "q");
    assert_eq!(
        numbers(&bin),
        vec![Some(1), Some(0), None, Some(1), Some(0), Some(1)]
    );
    assert_eq!(
        numbers(&left),
        vec![Some(30), None, None, Some(30), None, Some(30)]
    );
    assert_eq!(
        numbers(&right),
        vec![None, Some(30), None, None, Some(30), None]
    );
    assert_eq!(*left.dtype(), DataType::Integer(IntType::Int32));
}

#[test]
fn equal_values_share_a_bin() {
    let s = ints(&[Some(5), Some(5), Some(5), Some(1), Some(9)]);
    for right_closed in [false, true] {
        let bin = plain(bin_quantiles(&s, FractionSpec::Count(3), None, false, right_closed));
        let bins = numbers(&bin);
        assert_eq!(bins[0], bins[1]);
        assert_eq!(bins[1], bins[2]);
        assert!(bins[3] <= bins[0] && bins[0] <= bins[4]);
    }
}

#[test]
fn explicit_positions() {
    let s = ints(&[Some(3), Some(1), Some(2), Some(4)]);
    let bin = plain(bin_quantiles(&s, FractionSpec::Explicit(&[0, 3]), None, false, false));
    assert_eq!(numbers(&bin), vec![Some(1), Some(1), Some(1), Some(2)]);
    let bin = plain(bin_quantiles(&s, FractionSpec::Explicit(&[]), None, false, false));
    assert_eq!(numbers(&bin), vec![Some(0); 4]);
}

#[test]
fn floats_are_sorted_with_nan_last() {
    let bits = |v: f64| Some(Value::Float(v.to_bits()));
    let values = vec![bits(f64::NAN), bits(-1.0), bits(2.0), bits(-0.0), bits(0.0)];
    let s = Series::new("f".to_string(), DataType::Float(FloatType::Float64), values).unwrap();
    let bin = plain(bin_quantiles(&s, FractionSpec::Count(2), None, false, false));
    assert_eq!(
        numbers(&bin),
        vec![Some(1), Some(0), Some(1), Some(1), Some(1)]
    );
}

#[test]
fn no_values_no_bins() {
    for s in [ints(&[]), ints(&[None, None, None])] {
        let (_, bin, left, right) =
            parts(bin_quantiles(&s, FractionSpec::Count(3), None, true, false));
        assert_eq!(numbers(&bin), vec![None; s.len()]);
        assert_eq!(numbers(&left), vec![None; s.len()]);
        assert_eq!(numbers(&right), vec![None; s.len()]);
        assert_eq!(*bin.dtype(), DataType::Integer(IntType::UInt32));
        assert_eq!(*right.dtype(), DataType::Integer(IntType::Int32));
    }
}

#[test]
fn quantile_binning_needs_a_bin() {
    assert!(matches!(
        bin_quantiles(&ints(&[Some(1)]), FractionSpec::Count(0), None, false, false),
        Err(BinError::NoBins(BinForm::Quantiles))
    ));
}

#[test]
fn quantile_labels_must_match() {
    let names = vec!["a".to_string(), "b".to_string(), "c".to_string()];
    assert!(matches!(
        bin_quantiles(&ints(&[None]), FractionSpec::Count(2), Some(&names), false, false),
        Err(BinError::LabelCount { n_bins: 2, labels: 3 })
    ));
}

#[test]
fn permuting_the_rows_permutes_the_bins() {
    let values = [Some(5), Some(1), None, Some(5), Some(9), Some(2), Some(1)];
    let p = [4, 2, 0, 6, 1, 5, 3];
    let permuted: Vec<Option<i128>> = p.iter().map(|i| values[*i]).collect();
    for right_closed in [false, true] {
        for n in 1..6 {
            let bins = |s: &Series| {
                numbers(&plain(bin_quantiles(s, FractionSpec::Count(n), None, false, right_closed)))
            };
            let before = bins(&ints(&values));
            let expected: Vec<Option<i128>> = p.iter().map(|i| before[*i]).collect();
            assert_eq!(bins(&ints(&permuted)), expected);
        }
    }
}

#[test]
fn reporting_keeps_quantile_bins() {
    let s = ints(&[Some(5), Some(1), None, Some(5), Some(9)]);
    let alone = plain(bin_quantiles(&s, FractionSpec::Count(3), None, false, true));
    let (_, bin, _, _) = parts(bin_quantiles(&s, FractionSpec::Count(3), None, true, true));
    assert_eq!(numbers(&alone), numbers(&bin));
    assert_eq!(alone.dtype(), bin.dtype());
}
