//! The restaurant exercise: a small menu model and the front-of-house
//! duties around seating and serving.

use vstd::prelude::*;

verus! {

/// A starter on the menu.
#[derive(Debug, PartialEq, Eq)]
pub enum Appetizer {
    Soup,
    Salad,
}

/// A breakfast order: the customer picks the toast; the fruit follows the
/// season and is the kitchen's choice.
pub struct Breakfast {
    pub toast: String,
    seasonal_fruit: String,
}

impl Breakfast {
    /// What fruit comes with the breakfast.
    pub closed spec fn fruit(&self) -> Seq<char> {
        self.seasonal_fruit@
    }

    /// What toast the breakfast is served with.
    pub closed spec fn toast_view(&self) -> Seq<char> {
        self.toast@
    }

    /// The summer breakfast: the chosen toast, served with peaches.
    pub fn summer(toast: &str) -> (r: Breakfast)
        ensures
            r.toast_view() == toast@,
            r.fruit() == "peaches"@,
    {
        Breakfast {
            toast: String::from_str(toast),
            seasonal_fruit: String::from_str("peaches"),
        }
    }
}

/// Puts the party on the waitlist.
pub fn add_to_waitlist() {
}

#[allow(dead_code)]
fn seat_at_table() {
}

#[allow(dead_code)]
fn take_order() {
}

#[allow(dead_code)]
fn serve_order() {
}

#[allow(dead_code)]
fn take_payment() {
}

} // verus!
