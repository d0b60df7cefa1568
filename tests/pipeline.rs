use numberlink::arcs::{adj, gen_arcs};
use numberlink::cardinality::{mk_clause_eq1, mk_clause_less2, Literal};
use numberlink::decode::{consume, decode_field, get_num, is_valid_code, parse_url};
use numberlink::encode::encode;
use numberlink::field::parse_field;
use numberlink::sat::solve_formula;
use numberlink::solution::{check_field, reconstruct, solve_numberlink};
use numberlink::NumberlinkError;

fn chars(s: &str) -> Vec<char> {
    s.chars().collect()
}

fn holds(clauses: &Vec<Vec<Literal>>, a: &Vec<bool>) -> bool {
    clauses
        .iter()
        .all(|c| c.iter().any(|l| l.var < a.len() && a[l.var] == l.positive))
}

fn assignment(n: usize, bits: usize) -> Vec<bool> {
    (0..n).map(|i| (bits >> i) & 1 == 1).collect()
}

#[test]
fn cardinality_exactly_one_brute_force() {
    for n in 1..=4usize {
        let vars: Vec<usize> = (0..n).collect();
        let clauses = mk_clause_eq1(&vars);
        for bits in 0..(1usize << n) {
            let a = assignment(n, bits);
            let trues = a.iter().filter(|x| **x).count();
            assert_eq!(holds(&clauses, &a), trues == 1, "n={} bits={}", n, bits);
        }
    }
}

#[test]
fn cardinality_at_most_one_brute_force() {
    for n in 1..=4usize {
        let vars: Vec<usize> = (0..n).collect();
        let clauses = mk_clause_less2(&vars);
        for bits in 0..(1usize << n) {
            let a = assignment(n, bits);
            let trues = a.iter().filter(|x| **x).count();
            assert_eq!(holds(&clauses, &a), trues <= 1, "n={} bits={}", n, bits);
        }
    }
}

#[test]
fn cardinality_clause_counts() {
    let vars: Vec<usize> = vec![5, 6, 7];
    // every pattern but the three with one true variable is blocked
    assert_eq!(mk_clause_eq1(&vars).len(), 5);
    // the patterns with two or three true variables are blocked
    assert_eq!(mk_clause_less2(&vars).len(), 4);
    for c in mk_clause_eq1(&vars) {
        assert_eq!(c.len(), 3);
        assert!(c.iter().all(|l| vars.contains(&l.var)));
    }
}

#[test]
fn adjacency_order_and_bounds() {
    assert_eq!(adj((0, 0), 3, 2), vec![(0, 1), (1, 0)]);
    assert_eq!(adj((1, 1), 3, 3), vec![(1, 2), (2, 1), (1, 0), (0, 1)]);
    // a 4-wide, 2-high grid: the corner (1, 3) has its neighbours left and up
    assert_eq!(adj((1, 3), 4, 2), vec![(1, 2), (0, 3)]);
}

#[test]
fn arcs_cover_each_adjacent_pair_once_per_direction() {
    let (w, h) = (3usize, 2usize);
    let arcs = gen_arcs(w, h);
    // 2 rows of 2 horizontal edges, 3 vertical edges: 7 edges, 14 arcs
    assert_eq!(arcs.len(), 14);
    for r in 0..h {
        for c in 0..w {
            for r2 in 0..h {
                for c2 in 0..w {
                    let adjacent = (r == r2 && (c + 1 == c2 || c2 + 1 == c))
                        || (c == c2 && (r + 1 == r2 || r2 + 1 == r));
                    let n = arcs.iter().filter(|x| **x == ((r, c), (r2, c2))).count();
                    assert_eq!(n, if adjacent { 1 } else { 0 });
                }
            }
        }
    }
}

#[test]
fn decode_digits_and_skips() {
    // '1' then 'h' skips two cells, then '2', then 'g' skips one, then 'f'
    let f = decode_field(3, 2, &chars("1h2gf")).unwrap();
    assert_eq!(f, vec![vec![1, 0, 0], vec![2, 0, 15]]);
}

#[test]
fn decode_stops_at_grid_end_and_short_codes() {
    let f = decode_field(2, 1, &chars("12345")).unwrap();
    assert_eq!(f, vec![vec![1, 2]]);
    let f = decode_field(2, 2, &chars("3")).unwrap();
    assert_eq!(f, vec![vec![3, 0], vec![0, 0]]);
}

#[test]
fn decode_rejects_bad_dimensions_and_alphabet() {
    assert_eq!(decode_field(0, 2, &chars("1")), None);
    assert_eq!(decode_field(2, 0, &chars("")), None);
    assert_eq!(decode_field(2, 2, &chars("1#")), None);
}

#[test]
fn consume_stops_at_non_positive_run() {
    // 'Z' lies before 'f': the scan stops on it, after the run of 'h'
    let list = chars("hZ2");
    let mut index = 0usize;
    let mut pos = 0usize;
    assert!(!consume(&mut index, &mut pos, 20, &list));
    assert_eq!(index, 1);
    assert_eq!(pos, 2);
}

#[test]
fn get_num_reads_hex_digits() {
    let list = chars("0a9fg");
    assert_eq!(get_num(0, &list), Some(0));
    assert_eq!(get_num(1, &list), Some(10));
    assert_eq!(get_num(2, &list), Some(9));
    assert_eq!(get_num(3, &list), Some(15));
    assert_eq!(get_num(4, &list), None);
}

#[test]
fn consume_skips_runs() {
    let list = chars("hi1");
    let mut index = 0usize;
    let mut pos = 0usize;
    assert!(consume(&mut index, &mut pos, 20, &list));
    assert_eq!(index, 2);
    assert_eq!(pos, 5);
}

#[test]
fn valid_code_alphabet() {
    assert!(is_valid_code(&chars("1p3hZ9")));
    assert!(!is_valid_code(&chars("1p#3")));
    assert!(is_valid_code(&chars("")));
}

#[test]
fn parse_url_reads_last_three_segments() {
    let f = parse_url(&chars("http://example.org/p.html?numlin/3/2/1h2gf")).unwrap();
    assert_eq!(f, vec![vec![1, 0, 0], vec![2, 0, 15]]);
}

#[test]
fn parse_url_rejects_hash_in_code() {
    assert_eq!(parse_url(&chars("numlin/3/3/1g#2")), Err(NumberlinkError::MalformedUrl));
}

#[test]
fn parse_url_rejects_bad_dimensions_and_segments() {
    assert_eq!(parse_url(&chars("3/1g2")), Err(NumberlinkError::MalformedUrl));
    assert_eq!(parse_url(&chars("x/0/3/12")), Err(NumberlinkError::MalformedUrl));
    assert_eq!(parse_url(&chars("x/3/abc/12")), Err(NumberlinkError::MalformedUrl));
    assert_eq!(parse_url(&chars("x//3/12")), Err(NumberlinkError::MalformedUrl));
}

#[test]
fn parse_field_roles() {
    let field = vec![vec![1, 0], vec![2, 1], vec![0, 2]];
    let (s, t, b) = parse_field(&field).unwrap();
    assert_eq!(s, vec![(0, 0), (1, 0)]);
    assert_eq!(t, vec![(1, 1), (2, 1)]);
    assert_eq!(b, vec![(0, 1), (2, 0)]);
    assert_eq!(s.len() + t.len() + b.len(), 6);
}

#[test]
fn parse_field_rejects_third_occurrence_and_large_labels() {
    assert_eq!(parse_field(&vec![vec![1, 1, 1]]), None);
    assert_eq!(parse_field(&vec![vec![16, 16]]), None);
}

#[test]
fn label_used_once_is_malformed() {
    let field = vec![vec![1, 0], vec![0, 0]];
    assert_eq!(check_field(&field), Err(NumberlinkError::MalformedField));
    assert_eq!(solve_numberlink(&field), Err(NumberlinkError::MalformedField));
}

#[test]
fn malformed_shapes() {
    assert_eq!(solve_numberlink(&vec![]), Err(NumberlinkError::MalformedField));
    assert_eq!(solve_numberlink(&vec![vec![]]), Err(NumberlinkError::MalformedField));
    assert_eq!(solve_numberlink(&vec![vec![1, 1], vec![0]]), Err(NumberlinkError::MalformedField));
    assert_eq!(solve_numberlink(&vec![vec![0, 0], vec![0, 0]]), Err(NumberlinkError::MalformedField));
}

#[test]
fn adjacent_pairs_are_solved() {
    let field = vec![vec![1, 1], vec![2, 2]];
    let paths = solve_numberlink(&field).unwrap();
    assert_eq!(paths, vec![vec![(0, 0), (0, 1)], vec![(1, 0), (1, 1)]]);
}

#[test]
fn crossing_corners_are_unsatisfiable() {
    // label 1 at (0,0) and (2,2), label 2 at (0,2) and (2,0)
    let field = vec![vec![1, 0, 2], vec![0, 0, 0], vec![2, 0, 1]];
    assert_eq!(solve_numberlink(&field), Err(NumberlinkError::Unsatisfiable));
}

#[test]
fn crossing_corners_from_descriptor() {
    let field = parse_url(&chars("numlin/3/3/1g2i2g1")).unwrap();
    assert_eq!(field, vec![vec![1, 0, 2], vec![0, 0, 0], vec![2, 0, 1]]);
    assert_eq!(solve_numberlink(&field), Err(NumberlinkError::Unsatisfiable));
}

#[test]
fn isolated_body_loop_is_rejected() {
    let field = vec![vec![1, 1], vec![0, 0], vec![0, 0]];
    let (s, t, b) = check_field(&field).unwrap();
    let arcs = gen_arcs(2, 3);
    let clauses = encode(&field, &arcs, &s, &t, &b, 2, 3);
    let on = [
        ((0, 0), (0, 1)),
        ((1, 0), (1, 1)),
        ((1, 1), (2, 1)),
        ((2, 1), (2, 0)),
        ((2, 0), (1, 0)),
    ];
    let a: Vec<bool> = arcs.iter().map(|x| on.contains(x)).collect();
    assert!(holds(&clauses, &a));
    assert_eq!(reconstruct(&arcs, &a, &s, &t), Err(NumberlinkError::ReconstructionFailure));
    // without the loop the same chain is accepted
    let a2: Vec<bool> = arcs.iter().map(|x| *x == ((0, 0), (0, 1))).collect();
    assert!(holds(&clauses, &a2));
    assert_eq!(reconstruct(&arcs, &a2, &s, &t), Ok(vec![vec![(0, 0), (0, 1)]]));
}

#[test]
fn encoding_forbids_flow_between_labels() {
    let field = vec![vec![1, 0, 1]];
    let (s, t, b) = check_field(&field).unwrap();
    let arcs = gen_arcs(3, 1);
    let clauses = encode(&field, &arcs, &s, &t, &b, 3, 1);
    assert_eq!(solve_formula(&clauses, arcs.len()), Err(NumberlinkError::Unsatisfiable));
    assert_eq!(solve_numberlink(&field), Err(NumberlinkError::Unsatisfiable));
}

#[test]
fn solver_model_satisfies_formula() {
    let field = vec![vec![1, 1, 0], vec![0, 2, 2]];
    let (s, t, b) = check_field(&field).unwrap();
    let arcs = gen_arcs(3, 2);
    let clauses = encode(&field, &arcs, &s, &t, &b, 3, 2);
    let a = solve_formula(&clauses, arcs.len()).unwrap();
    assert_eq!(a.len(), arcs.len());
    assert!(holds(&clauses, &a));
}

#[test]
fn encoding_forbids_reverse_and_extra_flow() {
    let field = vec![vec![1, 1]];
    let (s, t, b) = check_field(&field).unwrap();
    let arcs = gen_arcs(2, 1);
    let clauses = encode(&field, &arcs, &s, &t, &b, 2, 1);
    let fwd: Vec<bool> = arcs.iter().map(|x| *x == ((0, 0), (0, 1))).collect();
    let back: Vec<bool> = arcs.iter().map(|x| *x == ((0, 1), (0, 0))).collect();
    let both: Vec<bool> = arcs.iter().map(|_| true).collect();
    assert!(holds(&clauses, &fwd));
    assert!(!holds(&clauses, &back));
    assert!(!holds(&clauses, &both));
}

#[test]
fn uppercase_hex_digits_are_labels() {
    let list = chars("B");
    assert_eq!(get_num(0, &list), Some(11));
    let f = decode_field(2, 1, &chars("Ag")).unwrap();
    assert_eq!(f, vec![vec![10, 0]]);
}

#[test]
fn parse_url_rejects_overflowing_dimensions() {
    assert_eq!(
        parse_url(&chars("x/99999999999999999999999/3/12")),
        Err(NumberlinkError::MalformedUrl)
    );
    assert_eq!(
        parse_url(&chars("x/4294967296/4294967296/12")),
        Err(NumberlinkError::MalformedUrl)
    );
}

#[test]
fn descriptor_to_paths() {
    let field = parse_url(&chars("numlin/2/2/1122")).unwrap();
    assert_eq!(field, vec![vec![1, 1], vec![2, 2]]);
    let paths = solve_numberlink(&field).unwrap();
    assert_eq!(paths.len(), 2);
    assert_eq!(paths[0], vec![(0, 0), (0, 1)]);
    assert_eq!(paths[1], vec![(1, 0), (1, 1)]);
}

fn lit(var: usize, positive: bool) -> Literal {
    Literal { var, positive }
}

#[test]
fn cardinality_exact_lists() {
    assert_eq!(mk_clause_eq1(&vec![0]), vec![vec![lit(0, true)]]);
    assert_eq!(
        mk_clause_eq1(&vec![0, 1]),
        vec![vec![lit(0, false), lit(1, false)], vec![lit(0, true), lit(1, true)]]
    );
    assert_eq!(mk_clause_less2(&vec![0]), Vec::<Vec<Literal>>::new());
    assert_eq!(mk_clause_less2(&vec![0, 1]), vec![vec![lit(0, false), lit(1, false)]]);
    for n in 1..=4usize {
        let vars: Vec<usize> = (0..n).collect();
        assert_eq!(mk_clause_eq1(&vars).len(), (1 << n) - n);
        assert_eq!(mk_clause_less2(&vars).len(), (1 << n) - n - 1);
    }
}

#[test]
fn arcs_in_row_major_order() {
    assert_eq!(
        gen_arcs(2, 2),
        vec![
            ((0, 0), (0, 1)),
            ((0, 0), (1, 0)),
            ((0, 1), (1, 1)),
            ((0, 1), (0, 0)),
            ((1, 0), (1, 1)),
            ((1, 0), (0, 0)),
            ((1, 1), (1, 0)),
            ((1, 1), (0, 1)),
        ]
    );
}

#[test]
fn diagonal_pairs_are_unsatisfiable() {
    let field = vec![vec![1, 2], vec![2, 1]];
    assert_eq!(solve_numberlink(&field), Err(NumberlinkError::Unsatisfiable));
}

#[test]
fn single_pair_row() {
    assert_eq!(solve_numberlink(&vec![vec![1, 1]]), Ok(vec![vec![(0, 0), (0, 1)]]));
}
