use pixel_based::fixed::{ONE, SEED_LEVEL};
use pixel_based::{DiffusionField, Extent};

fn field_of(n: usize) -> DiffusionField {
    DiffusionField::new(Extent { width: 100 * ONE, height: 100 * ONE }, n).unwrap()
}

fn intensities(field: &DiffusionField) -> Vec<Vec<u64>> {
    let n = field.resolution();
    (0..n).map(|x| (0..n).map(|y| field.cell(x, y).unwrap().0).collect()).collect()
}

fn total(field: &DiffusionField) -> u128 {
    intensities(field).iter().flatten().map(|&level| level as u128).sum()
}

fn as_float(level: u64) -> f64 {
    level as f64 / ONE as f64
}

#[test]
fn one_substep_on_five_by_five_at_strength_one() {
    let mut field = field_of(5);
    assert_eq!(field.cell(2, 2).unwrap().0, 100 * ONE);
    field.advance(1, ONE);
    // The two neighbours visited before the centre each hold 12.5 by then,
    // so the centre comes to (100 + (12.5 + 12.5) / 4) / 2.
    let centre = field.cell(2, 2).unwrap().0;
    assert_eq!(centre, 53 * ONE + ONE / 8);
    assert_eq!(as_float(centre), 53.125);
    assert!(50 * ONE <= centre && centre < 100 * ONE);
    assert_eq!(
        intensities(&field),
        vec![
            vec![0, 0, 0, 0, 0],
            vec![0, 0, 53687091200, 6710886400, 1677721600],
            vec![0, 53687091200, 228170137600, 29360128000, 7549747200],
            vec![0, 6710886400, 29360128000, 7340032000, 2778726400],
            vec![0, 1677721600, 7549747200, 2778726400, 1389363200],
        ]
    );
}

#[test]
fn cells_visited_before_the_centre_see_it_hot() {
    let mut field = field_of(5);
    field.advance(1, ONE);
    assert_eq!(as_float(field.cell(1, 2).unwrap().0), 12.5);
    assert_eq!(as_float(field.cell(2, 1).unwrap().0), 12.5);
    // visited after the centre: they read its new level
    assert_eq!(as_float(field.cell(2, 3).unwrap().0), 6.8359375);
    assert_eq!(as_float(field.cell(3, 2).unwrap().0), 6.8359375);
}

#[test]
fn edge_cell_reads_its_inner_neighbor_twice() {
    let mut field = field_of(3);
    field.advance(1, ONE);
    // (0, 1) reads the hot centre (1, 1) on both sides: 1 * (100 + 100) / 4 / 2.
    // Wrapped around it would read (2, 1), which is cold, and come to 12.5.
    assert_eq!(as_float(field.cell(0, 1).unwrap().0), 25.0);
    assert_eq!(as_float(field.cell(1, 0).unwrap().0), 25.0);
    assert_eq!(
        intensities(&field),
        vec![
            vec![0, 107374182400, 26843545600],
            vec![107374182400, 241591910400, 63753420800],
            vec![26843545600, 63753420800, 31876710400],
        ]
    );
}

#[test]
fn two_by_two_field_at_strength_one() {
    let mut field = field_of(2);
    field.advance(1, ONE);
    assert_eq!(intensities(&field), vec![vec![0, 25 * ONE], vec![25 * ONE, 62 * ONE + ONE / 2]]);
    let mut ticked = field_of(2);
    ticked.tick();
    assert_eq!(
        intensities(&ticked),
        vec![vec![57266248092, 85899357572], vec![85899357572, 200431814914]]
    );
}

#[test]
fn one_substep_on_five_by_five_at_strength_two() {
    let mut field = field_of(5);
    let before = total(&field);
    assert_eq!(before, SEED_LEVEL as u128);
    field.advance(1, 2 * ONE);
    assert_eq!(
        intensities(&field),
        vec![
            vec![0, 0, 0, 0, 0],
            vec![0, 0, 71582788266, 11930464711, 3976821570],
            vec![0, 71582788266, 167026505955, 29826161777, 10604857520],
            vec![0, 11930464711, 29826161777, 9942053925, 5081494228],
            vec![0, 3976821570, 10604857520, 5081494228, 3387662818],
        ]
    );
    // The cells relaxed before the centre take from it while it is still at
    // the seed level, and the centre takes from them afterwards: the sum of
    // all intensities goes from 100 to about 103.93.
    let after = total(&field);
    assert_eq!(after, 446361398842);
    assert!((as_float(after as u64) - 103.92661179462448).abs() < 1e-9);
    for row in intensities(&field) {
        for level in row {
            assert!(level <= SEED_LEVEL);
        }
    }
}

#[test]
fn intensity_spreads_outward_from_the_centre() {
    let mut field = field_of(5);
    field.tick();
    let grid = intensities(&field);
    assert!(grid[2][2] > grid[2][3] && grid[2][3] > grid[2][4]);
    assert!(grid[2][2] > grid[3][2] && grid[3][2] > grid[4][2]);
    assert!(grid[2][2] > grid[1][2] && grid[1][2] > grid[0][2]);
    assert!(grid[2][2] > grid[2][1] && grid[2][1] > grid[2][0]);
    assert!(grid.iter().flatten().all(|&level| level > 0));
}

#[test]
fn four_by_four_field_at_strength_one_half() {
    let mut field = field_of(4);
    field.advance(2, ONE / 2);
    assert_eq!(
        intensities(&field),
        vec![
            vec![0, 0, 5965232355, 1988410785],
            vec![0, 5965232355, 25849340207, 8575021511],
            vec![5965232355, 25849340207, 298841570923, 51888546027],
            vec![1988410785, 8575021511, 51888546027, 17296182009],
        ]
    );
}
