use binning::binning::{
    bin_at_positions, bin_ranks, gather_at_sorted_positions, ranks_from_sort_idx, FractionSpec,
};
use binning::dtype::{DataType, IntType, NestedForm};
use binning::error::{BinError, BinForm};
use binning::output::Column;
use binning::positions::rank_cut_positions_uniform;
use binning::series::Series;
use binning::sorting::{arg_sort, sort_options};
use binning::value::Value;

fn ints(values: &[Option<i128>]) -> Series {
    let values = values.iter().map(|v| v.map(Value::Int)).collect();
    Series::new("r".to_string(), DataType::Integer(IntType::Int64), values).unwrap()
}

fn bytes(dtype: DataType, values: &[Option<&str>]) -> Series {
    let values = values.iter().map(|v| v.map(|s| Value::Bytes(s.as_bytes().to_vec()))).collect();
    Series::new("b".to_string(), dtype, values).unwrap()
}

fn numbers(s: &Series) -> Vec<Option<i128>> {
    (0..s.len())
        .map(|i| {
            s.get(i).map(|v| match v {
                Value::Int(x) => *x,
                Value::UInt(x) => *x as i128,
                _ => panic!("not an integer"),
            })
        })
        .collect()
}

fn plain(binned: Result<Column, BinError>) -> Series {
    match binned {
        Ok(Column::Series(s)) => s,
        other => panic!("not a plain column: {:?}", other),
    }
}

fn parts(binned: Result<Column, BinError>) -> (String, Series, Series, Series) {
    match binned {
        Ok(Column::Struct { name, bin, left, right }) => (name, bin, left, right),
        other => panic!("not a struct: {:?}", other),
    }
}

#[test]
fn earlier_bins_are_the_larger_ones() {
    assert_eq!(rank_cut_positions_uniform(14, 4), vec![4, 8, 11]);
    assert_eq!(rank_cut_positions_uniform(3, 5), vec![1, 2, 3, 3]);
    assert_eq!(rank_cut_positions_uniform(0, 3), vec![0, 0]);
    assert_eq!(rank_cut_positions_uniform(9, 1), Vec::<u32>::new());
    let values: Vec<Option<i128>> = (0..14).map(|i| Some((i * 5) % 14)).collect();
    let bins = numbers(&plain(bin_ranks(&ints(&values), FractionSpec::Count(4), None, false)));
    let sizes: Vec<usize> =
        (0..4).map(|b| bins.iter().filter(|x| **x == Some(b)).count()).collect();
    assert_eq!(sizes, vec![4, 4, 3, 3]);
}

#[test]
fn ties_are_split_by_position() {
    let bin = plain(bin_ranks(&ints(&[Some(5), Some(5)]), FractionSpec::Count(2), None, false));
    assert_eq!(numbers(&bin), vec![Some(0), Some(1)]);
    let ties = bytes(DataType::Binary, &[Some("x"), Some("x"), Some("a"), Some("x")]);
    let bin = plain(bin_ranks(&ties, FractionSpec::Count(2), None, false));
    assert_eq!(numbers(&bin), vec![Some(0), Some(1), Some(0), Some(1)]);
}

#[test]
fn sorting_is_stable_with_nulls_last() {
    let options = sort_options();
    assert!(!options.descending && options.nulls_last && options.maintain_order);
    let s = ints(&[Some(2), None, Some(-1), Some(2), None, Some(0)]);
    assert_eq!(arg_sort(&s), vec![2, 5, 0, 3, 1, 4]);
    let s = bytes(DataType::String, &[Some("b"), None, Some("a"), Some("b"), Some(""), None]);
    assert_eq!(arg_sort(&s), vec![4, 2, 0, 3, 1, 5]);
    let wide = vec![Some(Value::UInt(u128::MAX)), Some(Value::UInt(1)), Some(Value::Int(0))];
    let wide = Series::new("w".to_string(), DataType::Integer(IntType::UInt128), wide).unwrap();
    assert_eq!(arg_sort(&wide), vec![2, 1, 0]);
}

#[test]
fn sorting_long_columns_is_stable() {
    let values: Vec<Option<i128>> =
        (0..3000).map(|i| if i % 7 == 0 { None } else { Some(i % 3) }).collect();
    let order = arg_sort(&ints(&values));
    let mut expected: Vec<u32> = (0..3000).collect();
    expected.sort_by_key(|i| match values[*i as usize] {
        Some(x) => (0, x),
        None => (1, 0),
    });
    assert_eq!(order, expected);
}

#[test]
fn nulls_get_no_bin() {
    let s = ints(&[None, Some(3), Some(1), None, Some(2)]);
    let bin = plain(bin_ranks(&s, FractionSpec::Count(3), None, false));
    assert_eq!(numbers(&bin), vec![None, Some(2), Some(0), None, Some(1)]);
}

#[test]
fn bounds_are_values_at_the_cuts() {
    let s = ints(&[Some(30), Some(10), Some(20), Some(40)]);
    let (name, bin, left, right) = parts(bin_ranks(&s, FractionSpec::Count(2), None, true));
    assert_eq!(name, "r");
    assert_eq!(numbers(&bin), vec![Some(1), Some(0), Some(0), Some(1)]);
    assert_eq!(numbers(&left), vec![Some(30), None, None, Some(30)]);
    assert_eq!(numbers(&right), vec![None, Some(30), Some(30), None]);
}

#[test]
fn trailing_empty_bins_have_no_bound() {
    let s = ints(&[Some(7), Some(3)]);
    let (_, bin, left, right) = parts(bin_ranks(&s, FractionSpec::Count(4), None, true));
    assert_eq!(numbers(&bin), vec![Some(1), Some(0)]);
    assert_eq!(numbers(&left), vec![Some(7), None]);
    assert_eq!(numbers(&right), vec![None, Some(7)]);
}

#[test]
fn explicit_cuts() {
    let s = ints(&[Some(30), Some(10), Some(20), Some(40)]);
    let bin = plain(bin_ranks(&s, FractionSpec::Explicit(&[1, 4]), None, false));
    assert_eq!(numbers(&bin), vec![Some(1), Some(0), Some(1), Some(1)]);
}

#[test]
fn categories_are_ranked_as_strings() {
    let dtype = DataType::Categorical {
        name: "c".to_string(),
        namespace: "".to_string(),
        physical: binning::dtype::CategoricalPhysical::U32,
    };
    let s = bytes(dtype.clone(), &[Some("z"), Some("m"), Some("a")]);
    let (_, bin, left, _) = parts(bin_ranks(&s, FractionSpec::Count(3), None, true));
    assert_eq!(numbers(&bin), vec![Some(2), Some(1), Some(0)]);
    assert_eq!(*left.dtype(), dtype);
    assert_eq!(left.get(0), Some(&Value::Bytes(b"z".to_vec())));
    assert_eq!(left.get(2), None);
}

#[test]
fn ranks_of_no_values() {
    for s in [ints(&[]), ints(&[None])] {
        let (_, bin, left, right) = parts(bin_ranks(&s, FractionSpec::Count(2), None, true));
        assert_eq!(numbers(&bin), vec![None; s.len()]);
        assert_eq!(numbers(&left), vec![None; s.len()]);
        assert_eq!(numbers(&right), vec![None; s.len()]);
    }
}

#[test]
fn rank_labels_name_the_bins() {
    let names = vec!["low".to_string(), "high".to_string()];
    let s = ints(&[Some(2), Some(1)]);
    let bin = plain(bin_ranks(&s, FractionSpec::Count(2), Some(&names), false));
    assert_eq!(numbers(&bin), vec![Some(1), Some(0)]);
    assert_eq!(*bin.dtype(), DataType::Enum(names));
}

#[test]
fn rank_binning_needs_a_bin() {
    assert!(matches!(
        bin_ranks(&ints(&[Some(1)]), FractionSpec::Count(0), None, false),
        Err(BinError::NoBins(BinForm::Ranks))
    ));
}

#[test]
fn a_column_of_no_type_gets_null_bins() {
    let s = Series::new("n".to_string(), DataType::Null, vec![None, None]).unwrap();
    let names = vec!["low".to_string(), "high".to_string()];
    let (_, bin, left, right) = parts(bin_ranks(&s, FractionSpec::Count(2), Some(&names), true));
    assert_eq!(numbers(&bin), vec![None, None]);
    assert_eq!(*bin.dtype(), DataType::Enum(names));
    assert_eq!(*left.dtype(), DataType::Null);
    assert_eq!(*right.dtype(), DataType::Null);
    assert_eq!(right.len(), 2);
    assert!(Series::new("n".to_string(), DataType::Null, vec![Some(Value::Int(0))]).is_none());
}

#[test]
fn only_the_order_of_the_values_counts() {
    let s = ints(&[Some(3), None, Some(-7), Some(3), Some(100), Some(4)]);
    let t = ints(&[Some(0), None, Some(-1), Some(0), Some(2), Some(1)]);
    let u = bytes(
        DataType::String,
        &[Some("c"), None, Some("a"), Some("c"), Some("z"), Some("d")],
    );
    for n in 1..8 {
        let bins = |s: &Series| numbers(&plain(bin_ranks(s, FractionSpec::Count(n), None, false)));
        assert_eq!(bins(&s), bins(&t));
        assert_eq!(bins(&s), bins(&u));
    }
}

#[test]
fn reporting_keeps_rank_bins() {
    let s = ints(&[Some(3), None, Some(-7), Some(3), Some(100), Some(4)]);
    let alone = plain(bin_ranks(&s, FractionSpec::Explicit(&[1, 4, 5]), None, false));
    let (_, bin, _, _) = parts(bin_ranks(&s, FractionSpec::Explicit(&[1, 4, 5]), None, true));
    assert_eq!(numbers(&alone), numbers(&bin));
    assert_eq!(alone.dtype(), bin.dtype());
}

#[test]
fn any_listing_of_the_valid_rows_is_inverted() {
    let s = ints(&[Some(9), None, Some(1), Some(5)]);
    let idx = ranks_from_sort_idx(&s, &vec![3, 0, 2]);
    assert_eq!(idx.name, "r");
    assert_eq!(idx.values, vec![Some(1), None, Some(2), Some(0)]);
    let gathered = gather_at_sorted_positions(&s, &vec![3, 0, 2], &[2, 0, 3]);
    assert_eq!(numbers(&gathered), vec![Some(1), Some(5), None]);
    assert_eq!(gathered.name(), "r");
}

#[test]
fn positions_serve_values_and_ranks() {
    let s = ints(&[Some(5), Some(5), Some(5), None]);
    let by_rank = plain(bin_at_positions(&s, &[1, 2], 3, None, false, None));
    assert_eq!(numbers(&by_rank), vec![Some(0), Some(1), Some(2), None]);
    let by_value = plain(bin_at_positions(&s, &[1, 2], 3, None, false, Some(false)));
    assert_eq!(numbers(&by_value), vec![Some(2), Some(2), Some(2), None]);
    for closed in [None, Some(false), Some(true)] {
        let alone = plain(bin_at_positions(&s, &[1, 2], 3, None, false, closed));
        let (_, bin, _, _) = parts(bin_at_positions(&s, &[1, 2], 3, None, true, closed));
        assert_eq!(numbers(&alone), numbers(&bin));
    }
}

#[test]
fn nested_values_are_ranked_by_their_bytes() {
    let dtype = DataType::Nested { form: NestedForm::List, name: "List(Int64)".to_string() };
    let s = bytes(dtype.clone(), &[Some("bb"), Some("a"), None, Some("b")]);
    let (_, bin, left, _) = parts(bin_ranks(&s, FractionSpec::Count(3), None, true));
    assert_eq!(numbers(&bin), vec![Some(2), Some(0), None, Some(1)]);
    assert_eq!(*left.dtype(), dtype);
    assert_eq!(left.get(3), Some(&Value::Bytes(b"b".to_vec())));
}
