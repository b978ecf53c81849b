//! The admin gate: a per-client strike counter and shared-secret check
//! guarding the only mutating HTTP path.
//!
//! Each client identifier (usually an IP address) carries a count of
//! failed authentications. A client at three or more strikes is banned
//! for the life of the process: every further request is refused, even
//! with the correct secret, and nothing ever lowers a count. A request
//! with a missing or wrong token adds one strike; a successful request
//! leaves the counts untouched.

use vstd::prelude::*;

use crate::assoc::{
    lemma_map_of_insert_fresh, lemma_map_of_props, lemma_map_of_update, map_of, unique_keys,
};

verus! {

/// Number of failed authentications at which a client is banned.
pub const BAN_STRIKE_LIMIT: usize = 3;

#[derive(Clone, Copy, Debug, PartialEq, Eq, Structural)]
pub enum GateError {
    /// The client has reached the strike limit; terminal.
    Banned,
    /// The request carries no `admin_token` header.
    AuthMissing,
    /// The request's token differs from the configured secret.
    AuthInvalid,
}

/// Per-process gate state: each client identifier's strike count.
/// Entries are created on a client's first failed authentication and
/// never removed.
pub struct AppState {
    pub ip_to_admin_token_error_count_map: Vec<(String, usize)>,
}

pub open spec fn strike_entry_views(s: Seq<(String, usize)>) -> Seq<(Seq<char>, usize)> {
    s.map_values(|e: (String, usize)| (e.0@, e.1))
}

impl View for AppState {
    type V = Map<Seq<char>, usize>;

    open spec fn view(&self) -> Map<Seq<char>, usize> {
        map_of(strike_entry_views(self.ip_to_admin_token_error_count_map@))
    }
}

/// The strike count on file for a client: zero when the client has no
/// entry yet.
pub open spec fn strike_count(m: Map<Seq<char>, usize>, ip: Seq<char>) -> int {
    if m.contains_key(ip) {
        m[ip] as int
    } else {
        0
    }
}

/// The admin gate's ruling on one request: a banned client is turned
/// away first; then the token must match the secret.
pub open spec fn gate_decision(
    m: Map<Seq<char>, usize>,
    ip: Seq<char>,
    token: Option<Seq<char>>,
    secret: Seq<char>,
) -> Result<(), GateError> {
    if strike_count(m, ip) >= BAN_STRIKE_LIMIT {
        Err(GateError::Banned)
    } else if token is None {
        Err(GateError::AuthMissing)
    } else if token->0 != secret {
        Err(GateError::AuthInvalid)
    } else {
        Ok(())
    }
}

/// The strike counts after a request: a missing or wrong token adds
/// one strike for the client; nothing else changes them.
pub open spec fn gate_next(
    m: Map<Seq<char>, usize>,
    ip: Seq<char>,
    token: Option<Seq<char>>,
    secret: Seq<char>,
) -> Map<Seq<char>, usize> {
    match gate_decision(m, ip, token, secret) {
        Err(GateError::AuthMissing) => m.insert(ip, (strike_count(m, ip) + 1) as usize),
        Err(GateError::AuthInvalid) => m.insert(ip, (strike_count(m, ip) + 1) as usize),
        _ => m,
    }
}

pub open spec fn token_view(t: Option<&String>) -> Option<Seq<char>> {
    match t {
        Some(s) => Some(s@),
        None => None,
    }
}

impl Default for AppState {
    /// Fresh state, as [`AppState::new`] builds it.
    fn default() -> (s: Self)
        ensures
            s.wf(),
            s@ == Map::<Seq<char>, usize>::empty(),
    {
        AppState::new()
    }
}

impl AppState {
    /// No client identifier has two entries.
    pub open spec fn wf(&self) -> bool {
        unique_keys(strike_entry_views(self.ip_to_admin_token_error_count_map@))
    }

    /// Fresh state: no strikes on file.
    pub fn new() -> (s: AppState)
        ensures
            s.wf(),
            s@ == Map::<Seq<char>, usize>::empty(),
    {
        let s = AppState { ip_to_admin_token_error_count_map: Vec::new() };
        proof {
            assert(strike_entry_views(s.ip_to_admin_token_error_count_map@) =~= Seq::<
                (Seq<char>, usize),
            >::empty());
        }
        s
    }

    /// The strike count on file for `ip`, zero when absent.
    pub fn strike_count_for(&self, ip: &String) -> (r: usize)
        requires
            self.wf(),
        ensures
            r as int == strike_count(self@, ip@),
    {
        let entries = &self.ip_to_admin_token_error_count_map;
        let ghost views = strike_entry_views(entries@);
        let n = entries.len();
        let mut i: usize = 0;
        while i < n
            invariant
                i <= n,
                n == entries@.len(),
                views == strike_entry_views(entries@),
                unique_keys(views),
                self@ == map_of(views),
                forall|j: int| 0 <= j < i ==> (#[trigger] views[j]).0 != ip@,
            decreases n - i,
        {
            let entry = &entries[i];
            if entry.0 == *ip {
                proof {
                    lemma_map_of_props(views);
                    assert(views[i as int].0 == ip@);
                    assert(self@[ip@] == views[i as int].1);
                }
                return entry.1;
            }
            i = i + 1;
        }
        proof {
            lemma_map_of_props(views);
            if self@.contains_key(ip@) {
                let j = choose|j: int| 0 <= j < views.len() && (#[trigger] views[j]).0 == ip@;
                assert(false);
            }
        }
        0
    }

    /// Writes the strike count for `ip`, creating its entry if absent.
    pub fn set_strike_count(&mut self, ip: &String, count: usize)
        requires
            old(self).wf(),
        ensures
            final(self).wf(),
            final(self)@ == old(self)@.insert(ip@, count),
    {
        let ghost views = strike_entry_views(self.ip_to_admin_token_error_count_map@);
        let n = self.ip_to_admin_token_error_count_map.len();
        let mut i: usize = 0;
        while i < n
            invariant
                i <= n,
                n == self.ip_to_admin_token_error_count_map@.len(),
                views == strike_entry_views(self.ip_to_admin_token_error_count_map@),
                unique_keys(views),
                self == old(self),
                forall|j: int| 0 <= j < i ==> (#[trigger] views[j]).0 != ip@,
            decreases n - i,
        {
            if self.ip_to_admin_token_error_count_map[i].0 == *ip {
                self.ip_to_admin_token_error_count_map.remove(i);
                self.ip_to_admin_token_error_count_map.insert(i, (ip.clone(), count));
                proof {
                    let views2 = strike_entry_views(self.ip_to_admin_token_error_count_map@);
                    assert(views2 =~= views.update(i as int, (ip@, count)));
                    assert(views[i as int].0 == ip@);
                    assert(forall|x: int|
                        0 <= x < views2.len() ==> (#[trigger] views2[x]).0 == views[x].0);
                    assert forall|a: int, b: int| 0 <= a < b < views2.len() implies (
                    #[trigger] views2[a]).0 != (#[trigger] views2[b]).0 by {
                        assert(views[a].0 != views[b].0);
                    }
                    assert forall|x: int| i < x < views.len() implies (#[trigger] views[x]).0
                        != ip@ by {
                        assert(views[i as int].0 != views[x].0);
                    }
                    lemma_map_of_update(views, i as int, (ip@, count));
                }
                return ;
            }
            i = i + 1;
        }
        self.ip_to_admin_token_error_count_map.push((ip.clone(), count));
        proof {
            let views2 = strike_entry_views(self.ip_to_admin_token_error_count_map@);
            assert(views2 =~= views.insert(views.len() as int, (ip@, count)));
            assert forall|a: int, b: int| 0 <= a < b < views2.len() implies (#[trigger] views2[a]).0
                != (#[trigger] views2[b]).0 by {
                if b < views.len() {
                    assert(views2[a] == views[a]);
                    assert(views2[b] == views[b]);
                } else {
                    assert(views2[a] == views[a]);
                    assert(views2[b] == (ip@, count));
                    assert(views[a].0 != ip@);
                }
            }
            lemma_map_of_insert_fresh(views, views.len() as int, (ip@, count));
        }
    }
}

/// Runs the admin gate for one mutating request: looks the client up,
/// refuses a banned client outright, checks the `admin_token` header
/// against the configured secret, and counts a failed check as one
/// strike. On success the strike counts are untouched.
pub fn check_admin_token_error_count(
    state: &mut AppState,
    client_ip: &String,
    admin_token_from_request: Option<&String>,
    admin_token: &String,
) -> (r: Result<(), GateError>)
    requires
        old(state).wf(),
    ensures
        final(state).wf(),
        r == gate_decision(
            old(state)@,
            client_ip@,
            token_view(admin_token_from_request),
            admin_token@,
        ),
        final(state)@ == gate_next(
            old(state)@,
            client_ip@,
            token_view(admin_token_from_request),
            admin_token@,
        ),
{
    let count = state.strike_count_for(client_ip);
    if count >= BAN_STRIKE_LIMIT {
        return Err(GateError::Banned);
    }
    match admin_token_from_request {
        None => {
            state.set_strike_count(client_ip, count + 1);
            Err(GateError::AuthMissing)
        },
        Some(provided) => {
            if *provided == *admin_token {
                Ok(())
            } else {
                state.set_strike_count(client_ip, count + 1);
                Err(GateError::AuthInvalid)
            }
        },
    }
}

/// The client identifier of a request: the last value of the
/// forwarded-for header when one is present and readable, otherwise the
/// transport-level peer address.
pub fn derive_client_ip(forwarded_last: Option<&String>, peer_ip: &String) -> (r: String)
    ensures
        forwarded_last is Some ==> r@ == forwarded_last->0@,
        forwarded_last is None ==> r@ == peer_ip@,
{
    match forwarded_last {
        Some(value) => value.clone(),
        None => peer_ip.clone(),
    }
}

/// A request that the token check refuses: no token, or one that
/// differs from the secret.
pub open spec fn failed_attempt(token: Option<Seq<char>>, secret: Seq<char>) -> bool {
    token is None || token->0 != secret
}

/// Once banned, always banned: at three or more strikes every request
/// is refused and the state no longer changes, whatever token the
/// request carries.
pub proof fn lemma_ban_is_permanent(
    m: Map<Seq<char>, usize>,
    ip: Seq<char>,
    token: Option<Seq<char>>,
    secret: Seq<char>,
)
    requires
        strike_count(m, ip) >= BAN_STRIKE_LIMIT,
    ensures
        gate_decision(m, ip, token, secret) == Err::<(), GateError>(GateError::Banned),
        gate_next(m, ip, token, secret) == m,
{
}

/// Three consecutive failed authentications from one client ban it: a
/// fourth request from the same client with the correct secret is still
/// refused, and leaves the state unchanged.
pub proof fn lemma_three_strikes_then_banned(
    m0: Map<Seq<char>, usize>,
    ip: Seq<char>,
    t1: Option<Seq<char>>,
    t2: Option<Seq<char>>,
    t3: Option<Seq<char>>,
    secret: Seq<char>,
)
    requires
        strike_count(m0, ip) == 0,
        failed_attempt(t1, secret),
        failed_attempt(t2, secret),
        failed_attempt(t3, secret),
    ensures
        ({
            let m1 = gate_next(m0, ip, t1, secret);
            let m2 = gate_next(m1, ip, t2, secret);
            let m3 = gate_next(m2, ip, t3, secret);
            &&& gate_decision(m3, ip, Some(secret), secret) == Err::<(), GateError>(
                GateError::Banned,
            )
            &&& gate_next(m3, ip, Some(secret), secret) == m3
        }),
{
    let m1 = gate_next(m0, ip, t1, secret);
    let m2 = gate_next(m1, ip, t2, secret);
    let m3 = gate_next(m2, ip, t3, secret);
    assert(strike_count(m1, ip) == 1);
    assert(strike_count(m2, ip) == 2);
    assert(strike_count(m3, ip) == 3);
    lemma_ban_is_permanent(m3, ip, Some(secret), secret);
}

} // verus!
