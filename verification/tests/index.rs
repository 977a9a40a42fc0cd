use seating::index::{add_connection, RelationshipIndex};
use seating::total::{exact_total_cost, total_cost};
use seating::{Connection, ConnectionType, Person, SeatingError};

fn row(numbers: &[u8]) -> Vec<Person> {
    numbers.iter().map(|n| Person(*n)).collect()
}

fn link(a: u8, b: u8, kind: ConnectionType) -> Connection {
    Connection { person_a: Person(a), person_b: Person(b), kind }
}

fn index_of(links: &[(u8, u8, ConnectionType)]) -> RelationshipIndex {
    let mut index = RelationshipIndex::new();
    for (a, b, kind) in links {
        add_connection(&mut index, *a, *b, *kind);
    }
    index
}

#[test]
fn new_index_knows_nobody() {
    let index = RelationshipIndex::new();
    for number in 0..=255u8 {
        assert!(index.connections_of(Person(number)).is_none());
    }
}

#[test]
fn add_connection_files_under_both_people() {
    let mut index = RelationshipIndex::new();
    add_connection(&mut index, 1u8, 2u8, ConnectionType::Friends);
    add_connection(&mut index, 2u8, 3u8, ConnectionType::OneWayCrush);
    assert_eq!(
        index.connections_of(Person(1)),
        Some(&vec![link(1, 2, ConnectionType::Friends)])
    );
    assert_eq!(
        index.connections_of(Person(2)),
        Some(&vec![link(1, 2, ConnectionType::Friends), link(2, 3, ConnectionType::OneWayCrush)])
    );
    assert_eq!(
        index.connections_of(Person(3)),
        Some(&vec![link(2, 3, ConnectionType::OneWayCrush)])
    );
    assert_eq!(index.connections_of(Person(4)), None);
}

#[test]
fn add_connection_takes_people_too() {
    let mut index = RelationshipIndex::new();
    add_connection(&mut index, Person(8), Person(6), ConnectionType::OneWayCrush);
    assert_eq!(
        index.connections_of(Person(8)),
        Some(&vec![link(8, 6, ConnectionType::OneWayCrush)])
    );
    assert_eq!(
        index.connections_of(Person(6)),
        Some(&vec![link(8, 6, ConnectionType::OneWayCrush)])
    );
}

#[test]
fn connect_keeps_the_order_of_adding() {
    let mut index = RelationshipIndex::new();
    index.connect(Person(5), Person(1), ConnectionType::Acquaintances);
    index.connect(Person(1), Person(5), ConnectionType::InRelationship);
    index.connect(Person(5), Person(9), ConnectionType::Friends);
    assert_eq!(
        index.connections_of(Person(5)),
        Some(&vec![
            link(5, 1, ConnectionType::Acquaintances),
            link(1, 5, ConnectionType::InRelationship),
            link(5, 9, ConnectionType::Friends),
        ])
    );
}

#[test]
fn connection_with_oneself_is_filed_twice() {
    let index = index_of(&[(1, 1, ConnectionType::Friends), (1, 2, ConnectionType::Friends)]);
    assert_eq!(
        index.connections_of(Person(1)),
        Some(&vec![
            link(1, 1, ConnectionType::Friends),
            link(1, 1, ConnectionType::Friends),
            link(1, 2, ConnectionType::Friends),
        ])
    );
    assert_eq!(total_cost(&row(&[1, 3, 2]), &index), Ok(3));
}

#[test]
fn mentions_only_checks_both_ends() {
    let index = index_of(&[(1, 2, ConnectionType::Friends), (2, 3, ConnectionType::Friends)]);
    assert!(index.mentions_only(&row(&[1, 2, 3])));
    assert!(index.mentions_only(&row(&[3, 2, 1, 0])));
    assert!(!index.mentions_only(&row(&[1, 2])));
    assert!(!index.mentions_only(&row(&[2, 3])));
    assert!(!index.mentions_only(&row(&[])));
    assert!(RelationshipIndex::new().mentions_only(&row(&[])));
}

#[test]
fn total_cost_of_a_couple_is_zero_either_way() {
    let index = index_of(&[(1, 2, ConnectionType::InRelationship)]);
    assert_eq!(total_cost(&row(&[1, 2]), &index), Ok(0));
    assert_eq!(total_cost(&row(&[2, 1]), &index), Ok(0));
}

#[test]
fn total_cost_prefers_the_middle_seat_for_the_one_both_know() {
    let index =
        index_of(&[(1, 2, ConnectionType::Friends), (2, 3, ConnectionType::Acquaintances)]);
    let middle = total_cost(&row(&[1, 2, 3]), &index).unwrap();
    let end = total_cost(&row(&[1, 3, 2]), &index).unwrap();
    let other_end = total_cost(&row(&[3, 1, 2]), &index).unwrap();
    assert_eq!(middle, 0);
    assert_eq!(end, 3);
    assert_eq!(other_end, 1);
    assert!(middle < end);
    assert!(middle < other_end);
}

#[test]
fn total_cost_of_one_person_is_zero() {
    let index = index_of(&[(1, 2, ConnectionType::InRelationship), (1, 1, ConnectionType::Friends)]);
    assert_eq!(total_cost(&row(&[1]), &index), Ok(0));
    assert_eq!(total_cost(&row(&[2]), &index), Ok(0));
    assert_eq!(total_cost(&row(&[7]), &index), Ok(0));
}

#[test]
fn total_cost_of_nobody_is_zero() {
    let index = index_of(&[(1, 2, ConnectionType::InRelationship)]);
    assert_eq!(total_cost(&row(&[]), &index), Ok(0));
}

#[test]
fn total_cost_counts_each_connection_once() {
    let index = index_of(&[(1, 4, ConnectionType::InRelationship)]);
    assert_eq!(total_cost(&row(&[1, 2, 3, 4]), &index), Ok(10));
    assert_eq!(total_cost(&row(&[4, 2, 3, 1]), &index), Ok(10));
    assert_eq!(total_cost(&row(&[2, 4, 3, 1]), &index), Ok(5));
}

#[test]
fn total_cost_ignores_what_people_are_called() {
    let links = [
        (1, 2, ConnectionType::InRelationship),
        (2, 3, ConnectionType::Friends),
        (4, 1, ConnectionType::OneWayCrush),
        (3, 4, ConnectionType::Acquaintances),
    ];
    let renamed: Vec<(u8, u8, ConnectionType)> =
        links.iter().map(|(a, b, kind)| (200 - a, 200 - b, *kind)).collect();
    let before = index_of(&links);
    let after = index_of(&renamed);
    for seating in [[1u8, 2, 3, 4], [4, 2, 1, 3], [3, 1, 4, 2], [2, 4, 3, 1]] {
        let renamed_seating: Vec<u8> = seating.iter().map(|n| 200 - n).collect();
        assert_eq!(
            total_cost(&row(&seating), &before),
            total_cost(&row(&renamed_seating), &after)
        );
    }
    assert_eq!(total_cost(&row(&[4, 2, 1, 3]), &before), Ok(4));
}

#[test]
fn total_cost_of_the_party_of_eight() {
    let index = index_of(&[
        (1, 2, ConnectionType::InRelationship),
        (2, 3, ConnectionType::Friends),
        (2, 6, ConnectionType::Friends),
        (3, 6, ConnectionType::Acquaintances),
        (3, 4, ConnectionType::Friends),
        (4, 5, ConnectionType::Acquaintances),
        (4, 7, ConnectionType::InRelationship),
        (5, 7, ConnectionType::Friends),
        (7, 8, ConnectionType::Acquaintances),
        (8, 6, ConnectionType::OneWayCrush),
    ]);
    assert_eq!(total_cost(&row(&[1, 2, 3, 4, 5, 6, 7, 8]), &index), Ok(23));
    assert_eq!(total_cost(&row(&[8, 7, 6, 5, 4, 3, 2, 1]), &index), Ok(23));
    assert_eq!(total_cost(&row(&[3, 6, 2, 1, 4, 7, 5, 8]), &index), Ok(9));
    assert_eq!(total_cost(&row(&[1, 2, 6, 3, 4, 7, 5, 8]), &index), Ok(1));
}

#[test]
fn total_cost_rejects_a_row_with_a_repeat() {
    let index = index_of(&[(1, 2, ConnectionType::Friends)]);
    assert_eq!(total_cost(&row(&[1, 2, 1]), &index), Err(SeatingError::RepeatedPerson));
}

#[test]
fn total_cost_reports_what_does_not_fit() {
    let mut index = RelationshipIndex::new();
    for _ in 0..7000 {
        index.connect(Person(1), Person(3), ConnectionType::InRelationship);
    }
    assert_eq!(total_cost(&row(&[1, 2, 3]), &index), Err(SeatingError::CostOutOfRange));
    assert_eq!(exact_total_cost(&row(&[1, 2, 3]), &index), 35000);
    assert_eq!(total_cost(&row(&[1, 3, 2]), &index), Ok(0));
}
