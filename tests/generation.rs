use rand::rngs::StdRng;
use rand::SeedableRng;

use seating::generators::{
    complete_components, fill_adj_matrix, friends_of_friends, random_associate, random_friend_lists,
    random_relations, rings, spousal_partition,
};
use seating::{GuestRelations, Problem};

#[test]
fn complete_components_blocks() {
    let rel = complete_components(2, 3);
    assert_eq!(rel.len(), 6);
    assert_eq!(
        rel.iter(),
        vec![
            vec![0, 1, 1, 0, 0, 0],
            vec![1, 0, 1, 0, 0, 0],
            vec![1, 1, 0, 0, 0, 0],
            vec![0, 0, 0, 0, 1, 1],
            vec![0, 0, 0, 1, 0, 1],
            vec![0, 0, 0, 1, 1, 0],
        ]
    );
    assert_eq!(complete_components(0, 4).len(), 0);
}

#[test]
fn rings_link_neighbours() {
    let rel = rings(1, 4);
    assert_eq!(
        rel.iter(),
        vec![vec![0, 1, 0, 1], vec![1, 0, 1, 0], vec![0, 1, 0, 1], vec![1, 0, 1, 0]]
    );
    let two = rings(2, 3);
    assert_eq!(two.relationship(0, 2), 1);
    assert_eq!(two.relationship(2, 3), 0);
    assert_eq!(two.relationship(3, 5), 1);
}

#[test]
fn spousal_partition_halves() {
    let rel = spousal_partition(4);
    assert_eq!(
        rel.iter(),
        vec![vec![0, 1, 0, 0], vec![1, 0, 0, 0], vec![0, 0, 0, 1], vec![0, 0, 1, 0]]
    );
    assert_eq!(spousal_partition(3).iter(), vec![vec![0, 0, 0], vec![0, 0, 1], vec![0, 1, 0]]);
}

#[test]
fn associate_is_someone_else() {
    let mut rng = StdRng::seed_from_u64(5);
    for _ in 0..200 {
        let a = random_associate(&mut rng, 1, 3);
        assert!(a < 3 && a != 1);
    }
    for _ in 0..20 {
        assert_eq!(random_associate(&mut rng, 0, 2), 1);
    }
}

fn check_friendship(lists: &[Vec<usize>]) {
    let n = lists.len();
    for (i, list) in lists.iter().enumerate() {
        assert!(list.iter().any(|j| *j != i));
        for j in list {
            assert!(*j < n);
            assert!(lists[*j].contains(&i));
        }
    }
}

#[test]
fn friend_lists_are_mutual() {
    let mut rng = StdRng::seed_from_u64(6);
    let mut lists = random_friend_lists(&mut rng, 30);
    assert_eq!(lists.len(), 30);
    check_friendship(&lists);
    for (i, list) in lists.iter().enumerate() {
        assert!(!list.contains(&i));
    }
    friends_of_friends(&mut rng, &mut lists);
    check_friendship(&lists);
    assert!(random_friend_lists(&mut rng, 0).is_empty());
}

#[test]
fn fill_marks_friends() {
    let lists = vec![vec![1, 0], vec![0], vec![]];
    let mut matrix = vec![vec![0, 0, 5], vec![0, 0, 0], vec![7, 0, 0]];
    fill_adj_matrix(&lists, 3, &mut matrix);
    assert_eq!(matrix, vec![vec![0, 3, 5], vec![3, 0, 0], vec![7, 0, 0]]);
}

#[test]
fn random_relations_are_symmetric_friendships() {
    let mut rng = StdRng::seed_from_u64(8);
    let rel = random_relations(&mut rng, 25);
    let rows = rel.iter();
    assert_eq!(rows.len(), 25);
    for i in 0..25 {
        assert_eq!(rows[i][i], 0);
        assert!(rows[i].iter().any(|v| *v == 1));
        for j in 0..25 {
            assert!(rows[i][j] == 0 || rows[i][j] == 1);
            assert_eq!(rows[i][j], rows[j][i]);
        }
    }
    assert!(GuestRelations::try_new(rows).is_some());
    assert_eq!(random_relations(&mut rng, 0).len(), 0);
}

#[test]
fn problem_survives_json_round_trip() {
    let problem = Problem { relations: complete_components(2, 2), n_tables: 2 };
    let mut relations = serde_json::Map::new();
    relations.insert("relationships".to_string(), serde_json::to_value(problem.relations.iter()).unwrap());
    let mut object = serde_json::Map::new();
    object.insert("relations".to_string(), serde_json::Value::Object(relations));
    object.insert("n_tables".to_string(), serde_json::Value::from(problem.n_tables));
    let bytes = serde_json::to_vec(&serde_json::Value::Object(object)).unwrap();

    let decoded: serde_json::Value = serde_json::from_slice(&bytes).unwrap();
    let rows: Vec<Vec<i64>> =
        serde_json::from_value(decoded["relations"]["relationships"].clone()).unwrap();
    let n_tables = decoded["n_tables"].as_u64().unwrap() as usize;
    let back = Problem { relations: GuestRelations::try_new(rows).unwrap(), n_tables };
    assert_eq!(back, problem);
}

#[test]
fn rings_of_one_seat_have_no_self_affinity() {
    let rel = rings(3, 1);
    assert_eq!(rel.iter(), vec![vec![0, 0, 0], vec![0, 0, 0], vec![0, 0, 0]]);
    assert!(GuestRelations::try_new(rel.iter()).is_some());
    assert!(GuestRelations::try_new(rings(2, 2).iter()).is_some());
}

#[test]
fn friends_of_friends_only_appends() {
    let mut rng = StdRng::seed_from_u64(9);
    let before = random_friend_lists(&mut rng, 12);
    let mut after = before.clone();
    friends_of_friends(&mut rng, &mut after);
    for (g, list) in before.iter().enumerate() {
        assert_eq!(&after[g][..list.len()], &list[..]);
        for f in &after[g][list.len()..] {
            assert!(after[g].iter().any(|m| after[*m].contains(f)));
        }
    }
}
