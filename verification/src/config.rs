//! The task taxonomy, as read from `~/.config/slingr/workspaces.toml`.
//! Finding and parsing the file is the program's business; this is what it
//! says.
use vstd::prelude::*;

use crate::names::NameMap;

verus! {

/// How the task menu is grouped: these prefixes first, in this order.
#[derive(Debug)]
pub struct Order {
    pub prefixes: Vec<String>,
}

#[derive(Debug)]
pub struct Config {
    /// Tasks offered whether or not anything is in them yet.
    pub known: Vec<String>,
    /// What each prefix's folder is called.
    pub labels: NameMap<String>,
    pub order: Order,
}

impl Default for Order {
    fn default() -> (o: Self)
        ensures
            o.prefixes@.len() == 0,
    {
        Order { prefixes: Vec::new() }
    }
}

impl Default for Config {
    /// Nothing known, nothing labelled, no order: every task still appears,
    /// grouped only by what its name says.
    fn default() -> (c: Self)
        ensures
            c.known@.len() == 0,
            c.labels.keys().len() == 0,
            c.order.prefixes@.len() == 0,
    {
        Config { known: Vec::new(), labels: NameMap::new(), order: Order { prefixes: Vec::new() } }
    }
}

} // verus!
