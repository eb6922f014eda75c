//! User settings, stored as key/value rows.
use vstd::prelude::*;
use crate::text::{owned, parse_i32, spec_parse_i32};

verus! {

#[derive(Debug, Clone)]
pub struct Settings {
    pub theme: String,
    /// Where the database file lives. Always local, and not configurable:
    /// hosting it in a cloud-synced folder is what corrupted it. Sharing
    /// data between machines is the sync folder's job instead.
    pub database_path: String,
    pub sidebar_width: Option<i32>,
    pub task_editor_width: Option<i32>,
}

pub open spec fn rows_view(rows: Seq<(String, String)>) -> Seq<(Seq<char>, Seq<char>)> {
    rows.map_values(|r: (String, String)| (r.0@, r.1@))
}

/// The value stored for `key`: the last row with that key, as collecting
/// the rows into a map keeps it.
pub open spec fn stored_value(rows: Seq<(Seq<char>, Seq<char>)>, key: Seq<char>) -> Option<Seq<char>>
    decreases rows.len(),
{
    if rows.len() == 0 {
        None
    } else if rows.last().0 == key {
        Some(rows.last().1)
    } else {
        stored_value(rows.drop_last(), key)
    }
}

/// The width stored under `key`, when it reads as a number.
pub open spec fn stored_width(rows: Seq<(Seq<char>, Seq<char>)>, key: Seq<char>) -> Option<i32> {
    match stored_value(rows, key) {
        Some(v) => spec_parse_i32(v),
        None => None,
    }
}

fn value_of<'a>(rows: &'a Vec<(String, String)>, key: &str) -> (r: Option<&'a String>)
    ensures
        match r {
            Some(v) => stored_value(rows_view(rows@), key@) == Some(v@),
            None => stored_value(rows_view(rows@), key@) is None,
        },
{
    let ghost s = rows_view(rows@);
    let mut i: usize = rows.len();
    assert(s.take(i as int) =~= s);
    while i > 0
        invariant
            i <= rows.len(),
            s == rows_view(rows@),
            stored_value(s, key@) == stored_value(s.take(i as int), key@),
        decreases i,
    {
        assert(s.take(i as int).last() == s[i - 1]);
        assert(s.take(i as int).drop_last() =~= s.take(i - 1));
        if crate::text::str_eq(rows[i - 1].0.as_str(), key) {
            return Some(&rows[i - 1].1);
        }
        i = i - 1;
    }
    None
}

fn width_of(rows: &Vec<(String, String)>, key: &str) -> (w: Option<i32>)
    ensures
        w == stored_width(rows_view(rows@), key@),
{
    match value_of(rows, key) {
        Some(v) => parse_i32(v.as_str()),
        None => None,
    }
}

/// The settings the stored rows describe: the theme defaults to `system`;
/// panel widths are kept only when they read as numbers.
pub fn settings_from(rows: &Vec<(String, String)>, database_path: String) -> (s: Settings)
    ensures
        s.theme@ == match stored_value(rows_view(rows@), "theme"@) {
            Some(t) => t,
            None => "system"@,
        },
        s.database_path@ == database_path@,
        s.sidebar_width == stored_width(rows_view(rows@), "sidebar_width"@),
        s.task_editor_width == stored_width(rows_view(rows@), "task_editor_width"@),
{
    let theme = match value_of(rows, "theme") {
        Some(t) => t.clone(),
        None => owned("system"),
    };
    Settings {
        theme,
        database_path,
        sidebar_width: width_of(rows, "sidebar_width"),
        task_editor_width: width_of(rows, "task_editor_width"),
    }
}

} // verus!
