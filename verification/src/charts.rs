//! Listening-chart data for a Last.fm user: the fixed chart periods and the
//! rows of a top-artists chart. Fetching and rendering live with the caller;
//! these are the carrier types and the period grammar.

use vstd::prelude::*;
use vstd::string::StringExecFns;

use crate::error::LastfmError;

verus! {

/// Whether two string slices hold the same characters.
fn str_eq(a: &str, b: &str) -> (r: bool)
    ensures
        r == (a@ == b@),
{
    let owned = a.to_owned();
    owned.eq(&b.to_owned())
}

/// One of the six fixed chart time windows that the remote service offers.
#[derive(Debug, Clone, Copy, PartialEq, Eq, Structural)]
pub enum Period {
    Week,
    Month,
    Quarter,
    Half,
    Year,
    Overall,
}

/// The query-parameter spelling of each period.
pub open spec fn spec_period_param(p: Period) -> Seq<char> {
    match p {
        Period::Week => "7day"@,
        Period::Month => "1month"@,
        Period::Quarter => "3month"@,
        Period::Half => "6month"@,
        Period::Year => "12month"@,
        Period::Overall => "overall"@,
    }
}

/// The period a query-parameter spelling denotes, if any.
pub open spec fn spec_period_of(s: Seq<char>) -> Option<Period> {
    if s == "7day"@ {
        Some(Period::Week)
    } else if s == "1month"@ {
        Some(Period::Month)
    } else if s == "3month"@ {
        Some(Period::Quarter)
    } else if s == "6month"@ {
        Some(Period::Half)
    } else if s == "12month"@ {
        Some(Period::Year)
    } else if s == "overall"@ {
        Some(Period::Overall)
    } else {
        None
    }
}

impl Period {
    /// The period named by a query-parameter value, or a message naming
    /// the invalid input.
    pub fn try_from(value: &str) -> (r: Result<Period, String>)
        ensures
            match r {
                Ok(p) => spec_period_of(value@) == Some(p),
                Err(m) => spec_period_of(value@) is None && m@ == "Invalid: "@ + value@,
            },
    {
        if str_eq(value, "7day") {
            Ok(Period::Week)
        } else if str_eq(value, "1month") {
            Ok(Period::Month)
        } else if str_eq(value, "3month") {
            Ok(Period::Quarter)
        } else if str_eq(value, "6month") {
            Ok(Period::Half)
        } else if str_eq(value, "12month") {
            Ok(Period::Year)
        } else if str_eq(value, "overall") {
            Ok(Period::Overall)
        } else {
            let mut m = String::from_str("Invalid: ");
            m.append(value);
            Err(m)
        }
    }

    /// The query-parameter spelling, in place of a `Display`
    /// implementation.
    pub fn as_param(&self) -> (r: &'static str)
        ensures
            r@ == spec_period_param(*self),
    {
        match self {
            Period::Week => "7day",
            Period::Month => "1month",
            Period::Quarter => "3month",
            Period::Half => "6month",
            Period::Year => "12month",
            Period::Overall => "overall",
        }
    }
}

impl Default for Period {
    /// The whole listening history.
    fn default() -> (r: Period)
        ensures
            r == Period::Overall,
    {
        Period::Overall
    }
}

/// One row of a top-artists chart.
#[derive(Debug)]
pub struct ChartArtist {
    pub name: String,
    pub playcount: u64,
    pub rank: u64,
}

/// A user's top-artists chart over one period.
#[derive(Debug)]
pub struct Chart {
    pub artists: Vec<ChartArtist>,
    pub period: Period,
}

/// A Last.fm user, named by their account name.
#[derive(Debug)]
pub struct User {
    username: String,
}

impl View for User {
    type V = Seq<char>;

    closed spec fn view(&self) -> Seq<char> {
        self.username@
    }
}

impl User {
    /// A user handle for `username`. Always succeeds; whether the account
    /// exists is only discovered on the first chart request.
    pub fn new(username: &str) -> (r: Result<User, LastfmError>)
        ensures
            match r {
                Ok(u) => u@ == username@,
                Err(_) => false,
            },
    {
        Ok(User { username: username.to_owned() })
    }

    /// The account name.
    pub fn username(&self) -> (r: &String)
        ensures
            r@ == self@,
    {
        &self.username
    }
}

} // verus!
