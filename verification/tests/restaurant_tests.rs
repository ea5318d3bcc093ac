use workshop::restaurant::add_to_waitlist;
use workshop::restaurant::Appetizer;
use workshop::restaurant::Breakfast;

#[test]
fn it_works() {
    assert_eq!(2 + 2, 4);
}

#[test]
fn summer_breakfast_takes_the_chosen_toast() {
    let mut meal = Breakfast::summer("rye");
    assert_eq!(meal.toast, "rye");
    meal.toast = String::from("wheat");
    assert_eq!(meal.toast, "wheat");
}

#[test]
fn orders_and_waitlist_are_available() {
    add_to_waitlist();
    let order1 = Appetizer::Salad;
    let order2 = Appetizer::Soup;
    assert_ne!(order1, order2);
}
