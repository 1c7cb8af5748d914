use battlecode::assign::hungarian;

fn total(matrix: &Vec<Vec<i16>>, rows: usize) -> i64 {
    let pairs = hungarian(matrix.clone());
    let cols = if matrix.is_empty() { 0 } else { matrix[0].len() };
    let expected = if rows < cols { rows } else { cols };
    assert_eq!(pairs.len(), expected);
    let mut used = vec![false; cols];
    let mut sum: i64 = 0;
    for (&row, &col) in pairs.iter() {
        assert!(row < rows);
        assert!(col < cols);
        assert!(!used[col]);
        used[col] = true;
        sum += matrix[row][col] as i64;
    }
    sum
}

fn search(matrix: &Vec<Vec<i16>>, row: usize, used: &mut Vec<bool>, left: usize) -> Option<i64> {
    if left == 0 {
        return Some(0);
    }
    if row == matrix.len() || matrix.len() - row < left {
        return None;
    }
    let mut best = search(matrix, row + 1, used, left);
    for col in 0..used.len() {
        if !used[col] {
            used[col] = true;
            if let Some(rest) = search(matrix, row + 1, used, left - 1) {
                let cost = rest + matrix[row][col] as i64;
                best = match best {
                    Some(b) if b <= cost => Some(b),
                    _ => Some(cost),
                };
            }
            used[col] = false;
        }
    }
    best
}

fn least(matrix: &Vec<Vec<i16>>) -> i64 {
    let cols = matrix[0].len();
    let size = if matrix.len() < cols { matrix.len() } else { cols };
    search(matrix, 0, &mut vec![false; cols], size).unwrap()
}

#[test]
fn assign_test_basic() {
    let matrix = vec![
        vec![1, 1, 1],
        vec![1, 1, 1],
        vec![1, 1, 1],
    ];
    println!("{:#?}", hungarian(matrix));
}

#[test]
fn test_sales() {
    let matrix = vec![
        vec![250, 400, 350],
        vec![400, 600, 350],
        vec![200, 400, 250],
    ];
    hungarian(matrix);
}

#[test]
fn test_wiki() {
    let matrix = vec![
        vec![0, 1, 2, 3],
        vec![4, 5, 6, 0],
        vec![0, 2, 4, 5],
        vec![3, 0, 0, 9],
    ];
    hungarian(matrix);
}

#[test]
fn test_bulldozer() {
    let matrix = vec![
        vec![90, 75, 75, 80],
        vec![35, 85, 55, 65],
        vec![125, 95, 90, 105],
        vec![45, 110, 95, 115],
    ];
    hungarian(matrix);
}

#[test]
fn test_stack() {
    let matrix = vec![
        vec![2, 9, 2, 7, 1],
        vec![6, 8, 7, 6, 1],
        vec![4, 6, 5, 3, 1],
        vec![4, 2, 7, 3, 1],
        vec![5, 3, 9, 5, 1],
    ];
    hungarian(matrix);
}

fn large() -> Vec<Vec<i16>> {
    vec![
        vec![1,5,5,2,3,1,2,3,2,4,5,2,3,1,5,5,2,3,1,5,1,4,3,2,5],
        vec![5,5,3,2,3,2,5,1,4,3,2,5,3,2,4,5,2,5,2,1,1,4,1,2,5],
        vec![5,1,4,3,2,5,1,1,4,1,2,5,2,2,3,4,1,4,5,3,2,4,5,2,5],
        vec![1,1,4,1,2,5,3,2,4,5,2,5,5,5,1,5,1,5,5,2,2,3,4,1,4],
        vec![3,2,4,5,2,5,2,2,3,4,1,4,5,4,2,1,3,2,5,5,5,1,5,1,5],
        vec![2,2,3,4,1,4,5,5,1,5,1,5,5,5,2,5,5,1,4,5,4,2,1,3,2],
        vec![5,5,1,5,1,5,5,5,3,2,3,2,1,5,5,1,5,1,5,5,5,2,5,5,1],
        vec![5,4,2,1,3,2,5,1,4,3,2,5,5,5,4,2,1,3,2,5,1,4,3,2,5],
        vec![5,5,2,5,5,1,1,1,4,1,2,5,1,5,5,2,5,5,1,1,1,4,1,2,5],
        vec![2,4,5,3,4,2,3,2,4,5,2,5,2,2,4,5,3,4,2,3,2,4,5,2,5],
        vec![2,2,5,5,1,3,2,2,3,4,1,4,2,2,2,5,5,1,3,2,2,3,4,1,4],
        vec![4,1,5,4,5,3,5,5,1,5,1,5,5,4,1,5,4,5,3,5,5,1,5,1,5],
        vec![5,1,4,3,2,5,3,2,4,5,2,5,5,5,1,4,3,2,5,3,2,4,5,2,5],
        vec![1,1,4,1,2,5,2,2,3,4,1,4,1,1,1,4,1,2,5,2,2,3,4,1,4],
        vec![3,2,4,5,2,5,5,5,1,5,1,5,4,3,2,4,5,2,5,5,5,1,5,1,5],
        vec![2,2,3,4,1,4,5,4,2,1,3,2,1,2,2,3,4,1,4,5,4,2,1,3,2],
        vec![5,5,1,5,1,5,5,5,2,5,5,1,2,5,5,1,5,1,5,5,5,2,5,5,1],
        vec![5,1,4,3,2,5,3,5,1,4,3,2,5,3,5,2,2,3,5,2,2,3,2,5,3],
        vec![3,4,1,4,1,1,1,1,1,4,1,2,5,5,1,4,3,2,5,1,4,1,2,5,2],
        vec![1,5,5,2,3,1,5,3,2,4,5,2,5,1,1,4,1,2,5,2,4,5,2,5,5],
        vec![5,5,3,2,3,2,2,2,2,3,4,1,4,3,2,4,5,2,5,2,3,4,1,4,3],
        vec![5,1,4,3,2,5,2,5,5,1,5,1,5,2,2,3,4,1,4,5,1,5,1,5,5],
        vec![1,1,4,1,2,5,2,5,4,2,1,3,2,5,5,1,5,1,5,4,2,1,3,2,1],
        vec![3,2,4,5,2,5,1,5,5,2,5,5,1,5,4,2,1,3,2,5,2,5,5,1,3],
        vec![2,2,3,4,1,4,1,2,4,5,3,4,2,5,5,2,5,5,1,4,5,3,4,2,2],
    ]
}

#[test]
fn test_large() {
    let matrix = large();
    hungarian(matrix);
}

fn fourteen() -> Vec<Vec<i16>> {
    vec![
        vec![0,0,0,0,0,0,0,0,0,0,0,0,0,0],
        vec![53,207,256,207,231,348,348,348,231,244,244,0,0,0],
        vec![240,33,67,33,56,133,133,133,56,33,33,0,0,0],
        vec![460,107,200,107,122,324,324,324,122,33,33,0,0,0],
        vec![167,340,396,340,422,567,567,567,422,442,442,0,0,0],
        vec![167,367,307,367,433,336,336,336,433,158,158,0,0,0],
        vec![160,20,37,20,31,70,70,70,31,22,22,0,0,0],
        vec![200,307,393,307,222,364,364,364,222,286,286,0,0,0],
        vec![33,153,152,153,228,252,252,252,228,78,78,0,0,0],
        vec![93,140,185,140,58,118,118,118,58,44,44,0,0,0],
        vec![0,7,22,7,19,58,58,58,19,0,0,0,0,0],
        vec![67,153,241,153,128,297,297,297,128,39,39,0,0,0],
        vec![73,253,389,253,253,539,539,539,253,36,36,0,0,0],
        vec![73,267,270,267,322,352,352,352,322,231,231,0,0,0],
    ]
}

#[test]
fn test_c() {
    let matrix = fourteen();
    println!("{:?}", hungarian(matrix));
}

#[test]
fn assign_test_wikihow() {
    let matrix = vec![
        vec![10, 19, 8, 15, 19],
        vec![10, 18, 7, 17, 19],
        vec![13, 16, 9, 14, 19],
        vec![12, 19, 8, 18, 19],
        vec![14, 17, 10, 19, 19]
    ];
    hungarian(matrix);
}

#[test]
fn karbonite_test_wikihow() {
    let matrix = vec![
        vec![10, 19, 8, 15, 19],
        vec![10, 18, 7, 17, 19],
        vec![13, 16, 9, 14, 19],
        vec![12, 19, 8, 18, 19],
        vec![14, 17, 10, 19, 19]
    ];
    hungarian(matrix);
}

#[test]
fn sales_are_solved_exactly() {
    let matrix: Vec<Vec<i16>> = vec![
        vec![250, 400, 350],
        vec![400, 600, 350],
        vec![200, 400, 250],
    ];
    assert_eq!(total(&matrix, 3), least(&matrix));
    assert_eq!(total(&matrix, 3), 950);
}

#[test]
fn equal_costs_give_a_full_assignment() {
    let matrix: Vec<Vec<i16>> = vec![vec![1, 1, 1], vec![1, 1, 1], vec![1, 1, 1]];
    assert_eq!(total(&matrix, 3), 3);
}

#[test]
fn wiki_costs_one() {
    let matrix: Vec<Vec<i16>> = vec![
        vec![0, 1, 2, 3],
        vec![4, 5, 6, 0],
        vec![0, 2, 4, 5],
        vec![3, 0, 0, 9],
    ];
    assert_eq!(total(&matrix, 4), least(&matrix));
    assert_eq!(total(&matrix, 4), 1);
}

#[test]
fn bulldozer_costs_275() {
    let matrix: Vec<Vec<i16>> = vec![
        vec![90, 75, 75, 80],
        vec![35, 85, 55, 65],
        vec![125, 95, 90, 105],
        vec![45, 110, 95, 115],
    ];
    assert_eq!(total(&matrix, 4), 275);
    assert_eq!(least(&matrix), 275);
}

#[test]
fn stack_matches_exhaustive_search() {
    let matrix: Vec<Vec<i16>> = vec![
        vec![2, 9, 2, 7, 1],
        vec![6, 8, 7, 6, 1],
        vec![4, 6, 5, 3, 1],
        vec![4, 2, 7, 3, 1],
        vec![5, 3, 9, 5, 1],
    ];
    assert_eq!(total(&matrix, 5), least(&matrix));
}

#[test]
fn wikihow_matches_exhaustive_search() {
    let matrix: Vec<Vec<i16>> = vec![
        vec![10, 19, 8, 15, 19],
        vec![10, 18, 7, 17, 19],
        vec![13, 16, 9, 14, 19],
        vec![12, 19, 8, 18, 19],
        vec![14, 17, 10, 19, 19],
    ];
    assert_eq!(total(&matrix, 5), least(&matrix));
}

#[test]
fn large_gives_every_row_a_column() {
    let matrix = large();
    let sum = total(&matrix, 25);
    assert!(sum >= 25);
    assert!(sum <= 36);
}

#[test]
fn fourteen_gives_every_row_a_column() {
    let matrix = fourteen();
    let sum = total(&matrix, 14);
    assert!(sum >= 0);
}

#[test]
fn no_rows_no_pairs() {
    let matrix: Vec<Vec<i16>> = Vec::new();
    assert!(hungarian(matrix).is_empty());
}

#[test]
fn no_columns_no_pairs() {
    let matrix: Vec<Vec<i16>> = vec![Vec::new(), Vec::new()];
    assert!(hungarian(matrix).is_empty());
}

#[test]
fn wide_matrix_is_solved_exactly() {
    let matrix: Vec<Vec<i16>> = vec![vec![7, 3, 9, 4], vec![2, 3, 8, 1]];
    assert_eq!(total(&matrix, 2), least(&matrix));
    assert_eq!(total(&matrix, 2), 4);
}

#[test]
fn tall_matrix_takes_the_cheapest_row() {
    let matrix: Vec<Vec<i16>> = vec![vec![5], vec![3]];
    let pairs = hungarian(matrix);
    assert_eq!(pairs.len(), 1);
    assert_eq!(pairs.get(&1), Some(&0));
    let matrix: Vec<Vec<i16>> = vec![vec![5], vec![3], vec![4]];
    let pairs = hungarian(matrix);
    assert_eq!(pairs.len(), 1);
    assert_eq!(pairs.get(&1), Some(&0));
}

#[test]
fn tall_matrix_is_solved_exactly() {
    let matrix: Vec<Vec<i16>> = vec![
        vec![7, 2, 9],
        vec![3, 8, 1],
        vec![4, 4, 4],
        vec![1, 9, 9],
        vec![6, 1, 2],
    ];
    assert_eq!(total(&matrix, 5), least(&matrix));
    assert_eq!(total(&matrix, 5), 3);
    let pairs = hungarian(matrix);
    assert_eq!(pairs.get(&3), Some(&0));
    assert_eq!(pairs.get(&4), Some(&1));
    assert_eq!(pairs.get(&1), Some(&2));
}

#[test]
fn negative_costs_are_solved_exactly() {
    let matrix: Vec<Vec<i16>> = vec![
        vec![-5, 0, 3],
        vec![-32768, 32767, 0],
        vec![4, -7, -7],
    ];
    assert_eq!(total(&matrix, 3), least(&matrix));
}

#[test]
fn a_zero_row_keeps_its_zero() {
    let matrix: Vec<Vec<i16>> = vec![
        vec![0, 4, 5],
        vec![3, 0, 6],
        vec![7, 8, 0],
    ];
    let pairs = hungarian(matrix);
    assert_eq!(pairs.get(&0), Some(&0));
    assert_eq!(pairs.get(&1), Some(&1));
    assert_eq!(pairs.get(&2), Some(&2));
}
