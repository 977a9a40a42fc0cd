use seating::cost::{cost, exact_cost, narrow};
use seating::seating::{all_distinct, membership, position_of};
use seating::{Connection, ConnectionType, Person, SeatingError};

fn row(numbers: &[u8]) -> Vec<Person> {
    numbers.iter().map(|n| Person(*n)).collect()
}

fn link(a: u8, b: u8, kind: ConnectionType) -> Connection {
    Connection { person_a: Person(a), person_b: Person(b), kind }
}

#[test]
fn person_from_number() {
    assert_eq!(Person::from(7u8), Person(7));
    let p: Person = 200u8.into();
    assert_eq!(p, Person(200));
}

#[test]
fn weights_of_the_four_kinds() {
    assert_eq!(ConnectionType::Friends.weight(), 3);
    assert_eq!(ConnectionType::InRelationship.weight(), 5);
    assert_eq!(ConnectionType::Acquaintances.weight(), 1);
    assert_eq!(ConnectionType::OneWayCrush.weight(), -1);
}

#[test]
fn cost_without_connections_is_zero() {
    let nobody: Vec<Connection> = Vec::new();
    for subject in 1..=4u8 {
        assert_eq!(cost(&Person(subject), row(&[1, 2, 3, 4]), &nobody), Ok(0));
        assert_eq!(cost(&Person(subject), row(&[4, 2, 1, 3]), &nobody), Ok(0));
    }
}

#[test]
fn cost_of_neighbours_is_zero() {
    for kind in [
        ConnectionType::Friends,
        ConnectionType::InRelationship,
        ConnectionType::Acquaintances,
        ConnectionType::OneWayCrush,
    ] {
        assert_eq!(cost(&Person(1), row(&[1, 2]), &vec![link(1, 2, kind)]), Ok(0));
        assert_eq!(cost(&Person(1), row(&[3, 2, 1]), &vec![link(1, 2, kind)]), Ok(0));
    }
}

#[test]
fn cost_with_one_seat_between_is_the_weight() {
    let seating = [1, 2, 3];
    assert_eq!(cost(&Person(1), row(&seating), &vec![link(1, 3, ConnectionType::Friends)]), Ok(3));
    assert_eq!(
        cost(&Person(1), row(&seating), &vec![link(1, 3, ConnectionType::InRelationship)]),
        Ok(5)
    );
    assert_eq!(
        cost(&Person(1), row(&seating), &vec![link(1, 3, ConnectionType::Acquaintances)]),
        Ok(1)
    );
    assert_eq!(
        cost(&Person(1), row(&seating), &vec![link(1, 3, ConnectionType::OneWayCrush)]),
        Ok(-1)
    );
}

#[test]
fn cost_grows_with_each_empty_seat() {
    let seating = [1, 2, 3, 4];
    assert_eq!(cost(&Person(1), row(&seating), &vec![link(1, 4, ConnectionType::Friends)]), Ok(6));
    assert_eq!(
        cost(&Person(1), row(&seating), &vec![link(1, 4, ConnectionType::InRelationship)]),
        Ok(10)
    );
    assert_eq!(
        cost(&Person(1), row(&seating), &vec![link(1, 4, ConnectionType::Acquaintances)]),
        Ok(2)
    );
    assert_eq!(
        cost(&Person(1), row(&seating), &vec![link(1, 4, ConnectionType::OneWayCrush)]),
        Ok(-2)
    );
}

#[test]
fn cost_is_the_same_from_either_side_of_the_row() {
    let friends = vec![link(1, 4, ConnectionType::Friends)];
    assert_eq!(cost(&Person(1), row(&[1, 2, 3, 4]), &friends), Ok(6));
    assert_eq!(cost(&Person(1), row(&[4, 3, 2, 1]), &friends), Ok(6));
}

#[test]
fn cost_charges_only_for_person_b() {
    let friends = vec![link(1, 4, ConnectionType::Friends)];
    assert_eq!(cost(&Person(4), row(&[1, 2, 3, 4]), &friends), Ok(0));
    let mixed = vec![
        link(2, 1, ConnectionType::Friends),
        link(2, 4, ConnectionType::InRelationship),
        link(3, 2, ConnectionType::Acquaintances),
    ];
    assert_eq!(cost(&Person(2), row(&[4, 2, 1]), &mixed), Ok(0));
    assert_eq!(cost(&Person(2), row(&[4, 5, 2, 6, 7, 1]), &mixed), Ok(2 * 3 + 1 * 5));
}

#[test]
fn cost_adds_up_over_connections() {
    let list = vec![
        link(1, 3, ConnectionType::Friends),
        link(1, 4, ConnectionType::OneWayCrush),
        link(1, 3, ConnectionType::InRelationship),
    ];
    assert_eq!(cost(&Person(1), row(&[1, 2, 3, 4]), &list), Ok(3 - 2 + 5));
}

#[test]
fn cost_rejects_a_row_without_its_subject() {
    let list = vec![link(1, 2, ConnectionType::Friends)];
    assert_eq!(cost(&Person(9), row(&[1, 2, 3]), &list), Err(SeatingError::SubjectNotSeated));
    assert_eq!(cost(&Person(1), row(&[]), &list), Err(SeatingError::SubjectNotSeated));
}

#[test]
fn cost_rejects_a_row_with_a_repeat() {
    let list = vec![link(1, 2, ConnectionType::Friends)];
    assert_eq!(cost(&Person(1), row(&[1, 2, 2]), &list), Err(SeatingError::RepeatedPerson));
    assert_eq!(cost(&Person(9), row(&[1, 1]), &list), Err(SeatingError::RepeatedPerson));
}

#[test]
fn cost_reports_what_does_not_fit() {
    let high = vec![link(1, 3, ConnectionType::Acquaintances); 32768];
    assert_eq!(cost(&Person(1), row(&[1, 2, 3]), &high), Err(SeatingError::CostOutOfRange));
    let low = vec![link(1, 3, ConnectionType::OneWayCrush); 32769];
    assert_eq!(cost(&Person(1), row(&[1, 2, 3]), &low), Err(SeatingError::CostOutOfRange));
}

#[test]
fn cost_reaches_both_ends_of_its_range() {
    let high = vec![link(1, 3, ConnectionType::Acquaintances); 32767];
    assert_eq!(cost(&Person(1), row(&[1, 2, 3]), &high), Ok(i16::MAX));
    let low = vec![link(1, 3, ConnectionType::OneWayCrush); 32768];
    assert_eq!(cost(&Person(1), row(&[1, 2, 3]), &low), Ok(i16::MIN));
}

#[test]
fn cost_may_pass_out_of_range_on_the_way() {
    let mut list = vec![link(1, 3, ConnectionType::InRelationship); 10000];
    list.extend(vec![link(1, 3, ConnectionType::OneWayCrush); 49000]);
    assert_eq!(cost(&Person(1), row(&[1, 2, 3]), &list), Ok(1000));
}

#[test]
fn exact_cost_is_not_limited_to_sixteen_bits() {
    let list = vec![link(1, 3, ConnectionType::InRelationship); 10000];
    assert_eq!(exact_cost(Person(1), &row(&[1, 2, 3]), &list), 50000);
    assert_eq!(exact_cost(Person(1), &row(&[1, 2, 4, 3]), &list), 100000);
}

#[test]
fn cost_of_the_longest_row() {
    let everybody: Vec<u8> = (0..=255).collect();
    let list = vec![link(0, 255, ConnectionType::InRelationship)];
    assert_eq!(cost(&Person(0), row(&everybody), &list), Ok(254 * 5));
    assert_eq!(cost(&Person(255), row(&everybody), &list), Ok(0));
}

#[test]
fn narrow_keeps_what_fits() {
    assert_eq!(narrow(0), Ok(0));
    assert_eq!(narrow(32767), Ok(32767));
    assert_eq!(narrow(-32768), Ok(-32768));
    assert_eq!(narrow(32768), Err(SeatingError::CostOutOfRange));
    assert_eq!(narrow(-32769), Err(SeatingError::CostOutOfRange));
    assert_eq!(narrow(i128::MAX), Err(SeatingError::CostOutOfRange));
}

#[test]
fn all_distinct_finds_repeats() {
    assert!(all_distinct(&row(&[])));
    assert!(all_distinct(&row(&[3])));
    assert!(all_distinct(&row(&[3, 1, 2, 255, 0])));
    assert!(!all_distinct(&row(&[3, 1, 3])));
    assert!(!all_distinct(&row(&[0, 0])));
    let everybody: Vec<u8> = (0..=255).collect();
    assert!(all_distinct(&row(&everybody)));
    let mut one_more = everybody.clone();
    one_more.push(17);
    assert!(!all_distinct(&row(&one_more)));
}

#[test]
fn position_of_finds_the_seat() {
    assert_eq!(position_of(&row(&[4, 5, 6]), Person(4)), Some(0));
    assert_eq!(position_of(&row(&[4, 5, 6]), Person(6)), Some(2));
    assert_eq!(position_of(&row(&[4, 5, 6]), Person(7)), None);
    assert_eq!(position_of(&row(&[4, 5, 4]), Person(4)), Some(0));
    assert_eq!(position_of(&row(&[]), Person(4)), None);
}

#[test]
fn membership_marks_who_is_there() {
    let present = membership(&row(&[2, 200, 2]));
    assert_eq!(present.len(), 256);
    for number in 0..256usize {
        assert_eq!(present[number], number == 2 || number == 200);
    }
}
