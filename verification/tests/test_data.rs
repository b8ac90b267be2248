use timesfm::data::{forecast_lines, split_line, table_columns};
use timesfm::{Double, Single, TimesfmError};

fn single(x: f32) -> Single {
    Single::from_bits(x.to_bits())
}

fn float(x: Single) -> f32 {
    f32::from_bits(x.to_bits())
}

fn singles(v: &[f32]) -> Vec<Single> {
    v.iter().map(|&x| single(x)).collect()
}

fn table(text: &str) -> Result<Vec<Vec<f32>>, TimesfmError> {
    let rows: Vec<Vec<Option<Single>>> = text
        .lines()
        .filter_map(split_line)
        .map(|cells| cells.iter().map(|c| c.parse::<f32>().ok().map(single)).collect())
        .collect();
    let columns = table_columns(&rows)?;
    Ok(columns.iter().map(|c| c.iter().map(|x| float(*x)).collect()).collect())
}

#[test]
fn lines_split_at_commas() {
    assert_eq!(split_line(" a , b,,c "), Some(vec!["a".into(), "b".into(), "".into(), "c".into()]));
    assert_eq!(split_line("x"), Some(vec!["x".into()]));
    assert_eq!(split_line(","), Some(vec!["".into(), "".into()]));
    assert_eq!(split_line(" \t"), None);
}

#[test]
fn tables_become_columns() {
    assert_eq!(table("1,2\n\n3,4\n").unwrap(), vec![vec![1.0, 3.0], vec![2.0, 4.0]]);
    assert_eq!(table("time,load\n1,2\n3,4").unwrap(), vec![vec![1.0, 3.0], vec![2.0, 4.0]]);
    assert_eq!(table("1,2\n3\n5,6,7").unwrap(), vec![vec![1.0, 3.0, 5.0], vec![2.0, 6.0]]);
    let gaps = table("1\nx\n3").unwrap();
    assert!(gaps[0][1].is_nan());
    assert_eq!(gaps[0][2], 3.0);
    assert_eq!(table("head").unwrap(), vec![Vec::<f32>::new()]);
    match table("\n  \n") {
        Err(TimesfmError::Inference(m)) => assert_eq!(m, "CSV file was empty"),
        _ => panic!("expected an error"),
    }
}

#[test]
fn forecasts_become_lines() {
    let levels: Vec<Double> = [0.1f64, 0.9].iter().map(|q| Double::from_bits(q.to_bits())).collect();
    let f = vec![singles(&[1.5, 2.0]), singles(&[-0.25, 1e6])];
    let q = Some(vec![
        vec![singles(&[1.0, 2.0]), singles(&[1.5, 2.5])],
        vec![singles(&[-1.0, 0.0]), singles(&[9e5, 2e6])],
    ]);
    assert_eq!(
        forecast_lines(&f, &q, &levels),
        vec![
            "step,series_0_forecast,series_0_q0.10,series_0_q0.90,series_1_forecast,series_1_q0.10,series_1_q0.90",
            "1,1.500000,1.000000,2.000000,-0.250000,-1.000000,0.000000",
            "2,2.000000,1.500000,2.500000,1000000.000000,900000.000000,2000000.000000",
        ]
    );
    assert_eq!(
        forecast_lines(&f, &None, &levels),
        vec!["step,series_0_forecast,series_1_forecast", "1,1.500000,-0.250000", "2,2.000000,1000000.000000"]
    );
    assert_eq!(forecast_lines(&Vec::new(), &None, &levels), Vec::<String>::new());
}
