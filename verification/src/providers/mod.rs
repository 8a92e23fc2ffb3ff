//! Where track information comes from.
pub mod abc;
pub mod poller;

use vstd::prelude::*;

verus! {

/// A radio network that stations of the lineup may belong to.
///
/// A station is known by its name in the lineup of the tuner.
pub trait MetadataProvider: Send + Sync + 'static {
    /// The identifier of a station.
    spec fn station_of(&self, guide_name: Seq<char>) -> Option<Seq<char>>;

    /// The name of the logo of a station.
    spec fn logo_of(&self, guide_name: Seq<char>) -> Option<Seq<char>>;

    /// The identifier under which the network knows a station, if it does.
    fn station_id_for(&self, guide_name: &str) -> (r: Option<String>)
        ensures
            match r {
                Some(id) => self.station_of(guide_name@) == Some(id@),
                None => self.station_of(guide_name@) is None,
            },
    ;

    /// The file name of the logo of a station, without `.png`.
    fn logo_key_for(&self, guide_name: &str) -> (r: Option<&'static str>)
        ensures
            match r {
                Some(key) => self.logo_of(guide_name@) == Some(key@),
                None => self.logo_of(guide_name@) is None,
            },
    ;
}

/// The texts of a table from prefixes to names.
pub open spec fn table_view(table: Seq<(&str, &str)>) -> Seq<(Seq<char>, Seq<char>)> {
    Seq::new(table.len(), |i: int| (table[i].0@, table[i].1@))
}

} // verus!
