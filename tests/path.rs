use mcmc_maze::{Edit, ErgodicAndSymmetric, Move, Path};
use rand::rngs::SmallRng;
use rand::SeedableRng;

fn is_one_edit(a: &[Option<Move>], b: &[Option<Move>]) -> bool {
    if b.len() == a.len() + 1 {
        return &b[..a.len()] == a;
    }
    if b.len() + 1 == a.len() {
        return b == &a[..b.len()];
    }
    if a.len() != b.len() {
        return false;
    }
    let diff: Vec<usize> = (0..a.len()).filter(|i| a[*i] != b[*i]).collect();
    match diff.len() {
        0 | 1 => true,
        2 => a[diff[0]] == b[diff[1]] && a[diff[1]] == b[diff[0]],
        _ => false,
    }
}

#[test]
fn arbitrary_draws_every_outcome() {
    let mut rng = SmallRng::seed_from_u64(3);
    let mut counts = [0usize; 5];
    for _ in 0..1000 {
        let k = match Move::arbitrary(&mut rng) {
            Some(Move::North) => 0,
            Some(Move::East) => 1,
            Some(Move::South) => 2,
            Some(Move::West) => 3,
            None => 4,
        };
        counts[k] += 1;
    }
    assert!(counts.iter().all(|c| *c > 100));
}

#[test]
fn every_mutation_is_one_local_edit() {
    let mut rng = SmallRng::seed_from_u64(17);
    let mut path = Path::empty();
    let mut lengths_seen = std::collections::HashSet::new();
    for _ in 0..2000 {
        let next = path.mutated(&mut rng);
        assert!(is_one_edit(&path.moves, &next.moves));
        lengths_seen.insert(next.moves.len() as i64 - path.moves.len() as i64);
        path = next;
    }
    assert!(lengths_seen.contains(&1));
    assert!(lengths_seen.contains(&-1));
    assert!(lengths_seen.contains(&0));
}

#[test]
fn candidate_of_empty_path_is_empty_or_one_move() {
    let mut rng = SmallRng::seed_from_u64(5);
    for _ in 0..200 {
        let c = Path::empty().candidate(&mut rng);
        assert!(c.moves.len() <= 1);
    }
}

#[test]
fn mutation_changes_some_path() {
    let mut rng = SmallRng::seed_from_u64(2);
    let path = Path { moves: vec![Some(Move::North), None, Some(Move::West)] };
    let changed = (0..200).any(|_| path.mutated(&mut rng).moves != path.moves);
    assert!(changed);
}

#[test]
fn each_edit_kind_changes_the_route_as_described() {
    let path = Path { moves: vec![Some(Move::North), None, Some(Move::West)] };
    assert_eq!(
        path.edited(Edit::Substitute(1, Some(Move::South))).moves,
        vec![Some(Move::North), Some(Move::South), Some(Move::West)]
    );
    assert_eq!(
        path.edited(Edit::Append(None)).moves,
        vec![Some(Move::North), None, Some(Move::West), None]
    );
    assert_eq!(path.edited(Edit::Truncate).moves, vec![Some(Move::North), None]);
    assert_eq!(
        path.edited(Edit::Transpose(0, 2)).moves,
        vec![Some(Move::West), None, Some(Move::North)]
    );
    assert_eq!(path.edited(Edit::Transpose(1, 1)).moves, path.moves);
    assert!(Path::empty().edited(Edit::Truncate).moves.is_empty());
}

#[test]
fn each_draw_gives_its_move() {
    assert_eq!(Move::from_draw(0), Some(Move::North));
    assert_eq!(Move::from_draw(1), Some(Move::East));
    assert_eq!(Move::from_draw(2), Some(Move::South));
    assert_eq!(Move::from_draw(3), Some(Move::West));
    assert_eq!(Move::from_draw(4), None);
}

#[test]
fn each_draw_gives_its_edit() {
    let m = Some(Move::East);
    assert_eq!(Path::edit_for(0, 3, 2, 1, m), Edit::Substitute(2, m));
    assert_eq!(Path::edit_for(1, 3, 2, 1, m), Edit::Append(m));
    assert_eq!(Path::edit_for(2, 3, 2, 1, m), Edit::Truncate);
    assert_eq!(Path::edit_for(3, 3, 2, 1, m), Edit::Transpose(2, 1));
    assert_eq!(Path::edit_for(1, 0, 0, 0, None), Edit::Append(None));
    assert_eq!(Path::edit_for(0, 0, 0, 0, m), Edit::Truncate);
    assert_eq!(Path::edit_for(3, 0, 0, 0, None), Edit::Truncate);
}
