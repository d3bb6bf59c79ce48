use vstd::prelude::*;

use serde_json::Value;

verus! {

/// serde_json's JSON object; Verus sees no inside of it.
#[verifier::external_type_specification]
#[verifier::external_body]
#[verifier::reject_recursive_types(K)]
#[verifier::reject_recursive_types(V)]
pub struct ExJsonMap<K, V>(serde_json::Map<K, V>);

/// serde_json's JSON value; Verus sees no inside of it.
#[verifier::external_type_specification]
#[verifier::external_body]
pub struct ExJsonValue(serde_json::Value);

/// The keys a JSON object holds.
pub uninterp spec fn json_map_keys(m: serde_json::Map<String, serde_json::Value>) -> Set<Seq<char>>;

/// Calls `serde_json::Map::new`, which makes an empty map: it holds no key.
#[verifier::external_body]
fn json_map_new() -> (m: serde_json::Map<String, Value>)
    ensures
        json_map_keys(m) == Set::<Seq<char>>::empty(),
{
    serde_json::Map::new()
}

/// A player's state between spins.
pub struct UserData {
    pub bets: i64,
    pub selfdata: serde_json::Map<String, Value>,
    pub actions: Vec<i64>,
}

impl UserData {
    /// A fresh player: bet 9, no saved data, one action `0`.
    pub fn new() -> (u: UserData)
        ensures
            u.bets == 9,
            json_map_keys(u.selfdata) == Set::<Seq<char>>::empty(),
            u.actions@ == seq![0i64],
    {
        let mut actions: Vec<i64> = Vec::new();
        actions.push(0);
        UserData { bets: 9, selfdata: json_map_new(), actions }
    }
}

/// What one spin produced.
pub struct SpinResult {
    pub wins: i64,
    pub action: i64,
    pub selfdata: serde_json::Map<String, Value>,
}

impl SpinResult {
    /// A spin that won nothing: no wins, action 0, no saved data.
    pub fn new() -> (r: SpinResult)
        ensures
            r.wins == 0,
            r.action == 0,
            json_map_keys(r.selfdata) == Set::<Seq<char>>::empty(),
    {
        SpinResult { wins: 0, action: 0, selfdata: json_map_new() }
    }
}

/// Logic that does nothing.
pub struct PhantomLogic {}

} // verus!
