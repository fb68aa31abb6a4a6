use pso_rs::{
    argmin_f, best_improvement, create_neighborhoods, local_best, personal_best_updates,
    NeighborhoodType, Neighborhoods, OrderKey,
};

fn key(x: f64) -> OrderKey {
    OrderKey::from_bits(x.to_bits())
}

#[test]
fn lbest_wraps_at_edges() {
    let neigh = create_neighborhoods(10, NeighborhoodType::Lbest, 2);
    match neigh {
        Neighborhoods::Lbest(n) => {
            assert_eq!(n[0], vec![8, 9, 0, 1, 2]);
            assert_eq!(n[9], vec![7, 8, 9, 0, 1]);
            assert_eq!(n[5], vec![3, 4, 5, 6, 7]);
            assert_eq!(n.len(), 10);
            assert!(n.iter().all(|row| row.iter().all(|&j| j < 10)));
        }
        Neighborhoods::Gbest => panic!("expected lbest"),
    }
}

#[test]
fn gbest_does_not_allocate_index_table() {
    match create_neighborhoods(100, NeighborhoodType::Gbest, 2) {
        Neighborhoods::Gbest => {}
        Neighborhoods::Lbest(_) => panic!("expected gbest"),
    }
}

#[test]
fn argmin_finds_lowest() {
    assert_eq!(argmin_f(&[key(3.0), key(1.0), key(2.0)]), Some(1));
    assert_eq!(argmin_f(&[]), None);
}

#[test]
fn argmin_keeps_first_of_equals_and_skips_nan() {
    assert_eq!(argmin_f(&[key(2.0), key(-1.0), key(-1.0)]), Some(1));
    assert_eq!(argmin_f(&[key(2.0), key(f64::NAN), key(5.0)]), Some(0));
    assert_eq!(argmin_f(&[key(f64::NAN), key(-7.0)]), Some(0));
    assert_eq!(argmin_f(&[key(0.0), key(-0.0)]), Some(0));
}

#[test]
fn ring_is_symmetric_and_holds_self() {
    let n = 7;
    let rho = 3;
    match create_neighborhoods(n, NeighborhoodType::Lbest, rho) {
        Neighborhoods::Lbest(rows) => {
            for i in 0..n {
                assert_eq!(rows[i].len(), 2 * rho + 1);
                assert_eq!(rows[i][rho], i);
                for k in 0..=2 * rho {
                    let j = rows[i][k];
                    assert_eq!(rows[j][2 * rho - k], i);
                }
            }
        }
        Neighborhoods::Gbest => panic!("expected lbest"),
    }
}

#[test]
fn empty_swarm_has_no_rings() {
    match create_neighborhoods(0, NeighborhoodType::Lbest, 2) {
        Neighborhoods::Lbest(rows) => assert!(rows.is_empty()),
        Neighborhoods::Gbest => panic!("expected lbest"),
    }
}

#[test]
fn local_best_searches_the_ring() {
    let neigh = create_neighborhoods(5, NeighborhoodType::Lbest, 1);
    let best = [key(4.0), key(0.5), key(3.0), key(-2.0), key(9.0)];
    assert_eq!(local_best(&neigh, &best, 0), 1);
    assert_eq!(local_best(&neigh, &best, 2), 3);
    assert_eq!(local_best(&neigh, &best, 4), 3);
    let global = create_neighborhoods(5, NeighborhoodType::Gbest, 1);
    assert_eq!(local_best(&global, &best, 0), 3);
    assert_eq!(local_best(&global, &[], 0), 0);
}

#[test]
fn global_best_improves_only_strictly() {
    let scores = [key(3.0), key(1.0), key(1.0), key(f64::NAN)];
    assert_eq!(best_improvement(&scores, key(f64::INFINITY)), Some(1));
    assert_eq!(best_improvement(&scores, key(1.0)), None);
    assert_eq!(best_improvement(&scores, key(f64::NAN)), None);
    assert_eq!(best_improvement(&[], key(0.0)), None);
}

#[test]
fn personal_bests_improve_where_strictly_lower() {
    let old = [key(1.0), key(2.0), key(f64::NAN), key(4.0)];
    let new = [key(0.5), key(2.0), key(-1.0), key(3.0)];
    assert_eq!(personal_best_updates(&old, &new), vec![0, 3]);
}
