//! The route store: a durable keyed collection of [`Route`] records.
//!
//! Records live in a stable-memory B-tree map keyed by route name, each in
//! the byte representation of [`crate::codec`].  The store's abstract value
//! is a map from name to [`RouteView`]; its invariant ties every stored
//! byte string to the record it encodes, keeps every key equal to its
//! record's name, and keeps blank names out.
use crate::codec::{enc_route, route_fits};
use crate::{is_blank, validate_route, Error, Request, RequestView, Response, ResponseView, Route, RouteView};
use vstd::prelude::*;

verus! {

/// The backing collection: a stable-memory B-tree map from route name to
/// the stored record's bytes.
#[verifier::external_body]
pub struct StableByteMap {
    inner: ic_stable_structures::BTreeMap<
        String,
        Vec<u8>,
        ic_stable_structures::DefaultMemoryImpl,
    >,
}

/// The entries the backing map holds: stored bytes, keyed by name.
pub uninterp spec fn map_entries(m: StableByteMap) -> Map<Seq<char>, Seq<u8>>;

/// The value of [`map_entries`] on a map that holds nothing.
pub open spec fn no_entries() -> Map<Seq<char>, Seq<u8>> {
    Map::empty()
}

impl StableByteMap {
    /// Relies on `ic_stable_structures::BTreeMap::new`: it initializes the
    /// given memory with a fresh, empty map.
    #[verifier::external_body]
    fn new() -> (r: StableByteMap)
        ensures
            map_entries(r) == no_entries(),
    {
        StableByteMap {
            inner: ic_stable_structures::BTreeMap::new(
                ic_stable_structures::DefaultMemoryImpl::default(),
            ),
        }
    }

    /// Relies on `ic_stable_structures::BTreeMap::insert`: stores the value
    /// under the key, replacing whatever the key held.
    #[verifier::external_body]
    fn insert(&mut self, key: String, value: Vec<u8>)
        ensures
            map_entries(*final(self)) == map_entries(*old(self)).insert(key@, value@),
    {
        self.inner.insert(key, value);
    }

    /// Relies on `ic_stable_structures::BTreeMap::get`: returns what the key
    /// holds, if anything.
    #[verifier::external_body]
    fn get(&self, key: &String) -> (r: Option<Vec<u8>>)
        ensures
            match r {
                Some(v) => map_entries(*self).dom().contains(key@) && map_entries(*self)[key@]
                    == v@,
                None => !map_entries(*self).dom().contains(key@),
            },
    {
        self.inner.get(key)
    }

    /// Relies on `ic_stable_structures::BTreeMap::remove`: takes the key's
    /// entry out and returns its value, or nothing when the key is absent.
    #[verifier::external_body]
    fn remove(&mut self, key: &String) -> (r: Option<Vec<u8>>)
        ensures
            map_entries(*final(self)) == map_entries(*old(self)).remove(key@),
            match r {
                Some(v) => map_entries(*old(self)).dom().contains(key@) && map_entries(
                    *old(self),
                )[key@] == v@,
                None => !map_entries(*old(self)).dom().contains(key@),
            },
    {
        self.inner.remove(key)
    }

    /// Relies on `ic_stable_structures::BTreeMap::iter`, which yields each
    /// stored entry exactly once, and on `BTreeMap::len`, which counts them.
    #[verifier::external_body]
    fn entries(&self) -> (r: Vec<(String, Vec<u8>)>)
        ensures
            r@.len() == map_entries(*self).dom().len(),
            forall|i: int| #![auto]
                0 <= i < r@.len() ==> map_entries(*self).contains_pair(r@[i].0@, r@[i].1@),
            forall|k: Seq<char>| #![auto]
                map_entries(*self).dom().contains(k) ==> exists|i: int|
                    0 <= i < r@.len() && r@[i].0@ == k,
            forall|i: int, j: int| 0 <= i < j < r@.len() ==> r@[i].0@ != r@[j].0@,
    {
        self.inner.iter().map(|e| e.into_pair()).collect()
    }
}

/// Relies on the `format!` macro: splices the route name into the message.
#[verifier::external_body]
fn not_found_msg(name: &String) -> (r: String)
    ensures
        r@ == "Route '"@ + name@ + "' not found."@,
{
    format!("Route '{}' not found.", name)
}

/// The registry of mock routes.  Its abstract value is the map from route
/// name to the record stored under it.
pub struct RouteStore {
    map: StableByteMap,
    model: Ghost<Map<Seq<char>, RouteView>>,
}

impl View for RouteStore {
    type V = Map<Seq<char>, RouteView>;

    closed spec fn view(&self) -> Map<Seq<char>, RouteView> {
        self.model@
    }
}

impl RouteStore {
    /// The store's invariant: the backing map holds exactly the abstract
    /// entries, each as the byte representation of its record; every key is
    /// the non-blank name of the record under it.
    pub closed spec fn wf(self) -> bool {
        let e = map_entries(self.map);
        &&& self@.dom() == e.dom()
        &&& self@.dom().finite()
        &&& forall|k: Seq<char>|
            #[trigger] self@.dom().contains(k) ==> e[k] == enc_route(self@[k]) && self@[k].route
                == k && !is_blank(k) && route_fits(self@[k])
    }

    /// Creates the store, holding nothing.
    pub fn new() -> (r: RouteStore)
        ensures
            r.wf(),
            r@ == Map::<Seq<char>, RouteView>::empty(),
    {
        let r = RouteStore {
            map: StableByteMap::new(),
            model: Ghost(Map::<Seq<char>, RouteView>::empty()),
        };
        proof {
            assert(r@.dom() =~= map_entries(r.map).dom());
        }
        r
    }

    /// Inserts the route under its name, replacing any entry the name
    /// already had.  A blank name is an invalid operation and leaves the
    /// store unchanged.
    pub fn add_route(&mut self, route: Route) -> (r: Result<(), Error>)
        requires
            old(self).wf(),
        ensures
            final(self).wf(),
            r is Ok <==> !is_blank(route.route@),
            r is Ok ==> final(self)@ == old(self)@.insert(route.route@, route@),
            r is Err ==> *final(self) == *old(self),
            r matches Err(e) ==> e matches Error::InvalidOperation { msg } && msg@
                == "Route name cannot be empty."@,
    {
        match validate_route(&route) {
            Err(e) => Err(e),
            Ok(()) => {
                let bytes: Vec<u8> = route.to_bytes();
                let name: String = route.route.clone();
                let ghost bs = bytes@;
                self.map.insert(name, bytes);
                self.model = Ghost(self.model@.insert(route.route@, route@));
                proof {
                    let m2 = self.model@;
                    let e2 = map_entries(self.map);
                    assert(m2.dom() =~= e2.dom());
                    assert(m2.dom() == old(self)@.dom().insert(route.route@));
                    assert(m2.dom().finite());
                    assert forall|k: Seq<char>| #![auto] m2.dom().contains(k) implies e2[k]
                        == enc_route(m2[k]) && m2[k].route == k && !is_blank(k) && route_fits(
                        m2[k],
                    ) by {
                        if k == route.route@ {
                            assert(m2[k] == route@);
                            assert(e2[k] == bs);
                        } else {
                            assert(old(self)@.dom().contains(k));
                            assert(e2[k] == map_entries(old(self).map)[k]);
                            assert(m2[k] == old(self)@[k]);
                        }
                    }
                }
                Ok(())
            },
        }
    }

    /// Replaces the request and expected response stored under an existing
    /// name; the name itself never changes.  An absent name is not found and
    /// leaves the store unchanged.
    pub fn edit_route(
        &mut self,
        route_name: String,
        new_request: Request,
        new_expected_response: Response,
    ) -> (r: Result<(), Error>)
        requires
            old(self).wf(),
        ensures
            final(self).wf(),
            r is Ok <==> old(self)@.dom().contains(route_name@),
            r is Ok ==> final(self)@ == old(self)@.insert(
                route_name@,
                RouteView {
                    route: route_name@,
                    request: new_request@,
                    expected_response: new_expected_response@,
                },
            ),
            r is Err ==> *final(self) == *old(self),
            r matches Err(e) ==> e matches Error::NotFound { msg } && msg@ == "Route '"@
                + route_name@ + "' not found."@,
    {
        match self.map.get(&route_name) {
            None => Err(Error::NotFound { msg: not_found_msg(&route_name) }),
            Some(_) => {
                let route = Route {
                    route: route_name,
                    request: new_request,
                    expected_response: new_expected_response,
                };
                let bytes: Vec<u8> = route.to_bytes();
                let name: String = route.route.clone();
                let ghost bs = bytes@;
                self.map.insert(name, bytes);
                self.model = Ghost(self.model@.insert(route.route@, route@));
                proof {
                    let m2 = self.model@;
                    let e2 = map_entries(self.map);
                    assert(m2.dom() =~= e2.dom());
                    assert(m2.dom() == old(self)@.dom().insert(route.route@));
                    assert(m2.dom().finite());
                    assert forall|k: Seq<char>| #![auto] m2.dom().contains(k) implies e2[k]
                        == enc_route(m2[k]) && m2[k].route == k && !is_blank(k) && route_fits(
                        m2[k],
                    ) by {
                        if k == route.route@ {
                            assert(m2[k] == route@);
                            assert(e2[k] == bs);
                            assert(!is_blank(k)) by {
                                assert(old(self)@.dom().contains(k));
                            }
                        } else {
                            assert(old(self)@.dom().contains(k));
                            assert(e2[k] == map_entries(old(self).map)[k]);
                            assert(m2[k] == old(self)@[k]);
                        }
                    }
                }
                Ok(())
            },
        }
    }

    /// A snapshot of every route the store holds: one entry per stored
    /// name, each equal to the record kept under that name, in some order.
    /// The snapshot is a copy: later changes to the store do not touch it.
    pub fn get_routes(&self) -> (r: Vec<Route>)
        requires
            self.wf(),
        ensures
            r@.len() == self@.dom().len(),
            forall|i: int| #![auto]
                0 <= i < r@.len() ==> self@.dom().contains(r@[i]@.route) && self@[r@[i]@.route]
                    == r@[i]@,
            forall|k: Seq<char>| #[trigger]
                self@.dom().contains(k) ==> exists|i: int|
                    0 <= i < r@.len() && r@[i]@.route == k,
            forall|i: int, j: int| 0 <= i < j < r@.len() ==> r@[i]@.route != r@[j]@.route,
    {
        let es: Vec<(String, Vec<u8>)> = self.map.entries();
        let mut out: Vec<Route> = Vec::new();
        let mut idx: usize = 0;
        while idx < es.len()
            invariant
                self.wf(),
                idx <= es@.len(),
                out@.len() == idx,
                es@.len() == self@.dom().len(),
                forall|i: int| #![auto]
                    0 <= i < es@.len() ==> map_entries(self.map).contains_pair(
                        es@[i].0@,
                        es@[i].1@,
                    ),
                forall|k: Seq<char>| #[trigger]
                    map_entries(self.map).dom().contains(k) ==> exists|i: int|
                        0 <= i < es@.len() && es@[i].0@ == k,
                forall|i: int, j: int| 0 <= i < j < es@.len() ==> es@[i].0@ != es@[j].0@,
                forall|n: int| #![auto]
                    0 <= n < idx ==> out@[n]@.route == es@[n].0@ && out@[n]@ == self@[es@[n].0@],
            decreases es@.len() - idx,
        {
            let pair: &(String, Vec<u8>) = &es[idx];
            let ghost k = pair.0@;
            proof {
                assert(map_entries(self.map).contains_pair(es@[idx as int].0@, es@[idx as int].1@));
                assert(self@.dom().contains(k));
                assert(pair.1@ == enc_route(self@[k]));
            }
            let o: Option<Route> = Route::from_bytes(&pair.1);
            proof {
                assert(o matches Some(rt) && rt@ == self@[k]);
            }
            let rt: Route = o.unwrap();
            out.push(rt);
            idx = idx + 1;
        }
        proof {
            assert forall|k: Seq<char>| #[trigger]
                self@.dom().contains(k) implies exists|i: int|
                0 <= i < out@.len() && out@[i]@.route == k by {
                assert(map_entries(self.map).dom().contains(k));
                let i = choose|i: int| 0 <= i < es@.len() && es@[i].0@ == k;
                assert(out@[i]@.route == k);
            }
        }
        out
    }

    /// Removes the entry stored under the name.  An absent name is not
    /// found and leaves the store unchanged.
    pub fn delete_route(&mut self, route_name: String) -> (r: Result<(), Error>)
        requires
            old(self).wf(),
        ensures
            final(self).wf(),
            r is Ok <==> old(self)@.dom().contains(route_name@),
            r is Ok ==> final(self)@ == old(self)@.remove(route_name@),
            r is Err ==> final(self)@ == old(self)@,
            r matches Err(e) ==> e matches Error::NotFound { msg } && msg@ == "Route '"@
                + route_name@ + "' not found."@,
    {
        match self.map.remove(&route_name) {
            None => {
                proof {
                    assert(map_entries(self.map) =~= map_entries(old(self).map));
                }
                Err(Error::NotFound { msg: not_found_msg(&route_name) })
            },
            Some(_) => {
                self.model = Ghost(self.model@.remove(route_name@));
                proof {
                    let m2 = self.model@;
                    let e2 = map_entries(self.map);
                    assert(m2.dom() =~= e2.dom());
                    assert(m2.dom() == old(self)@.dom().remove(route_name@));
                    assert(m2.dom().finite());
                    assert forall|k: Seq<char>| #![auto] m2.dom().contains(k) implies e2[k]
                        == enc_route(m2[k]) && m2[k].route == k && !is_blank(k) && route_fits(
                        m2[k],
                    ) by {
                        assert(old(self)@.dom().contains(k));
                        assert(e2[k] == map_entries(old(self).map)[k]);
                        assert(m2[k] == old(self)@[k]);
                    }
                }
                Ok(())
            },
        }
    }
}


/// Law: after a route is added, a snapshot that lists the store (in the
/// sense of [`RouteStore::get_routes`]) contains an entry with the added
/// name, and every entry with that name holds exactly the submitted record
/// — adding under an existing name therefore replaces the old fields, and
/// the name never appears twice.
pub proof fn lemma_added_route_listed(
    m: Map<Seq<char>, RouteView>,
    r: RouteView,
    out: Seq<RouteView>,
)
    requires
        forall|i: int| #![auto]
            0 <= i < out.len() ==> m.insert(r.route, r).dom().contains(out[i].route) && m.insert(
                r.route,
                r,
            )[out[i].route] == out[i],
        forall|k: Seq<char>| #[trigger]
            m.insert(r.route, r).dom().contains(k) ==> exists|i: int|
                0 <= i < out.len() && out[i].route == k,
    ensures
        exists|i: int| 0 <= i < out.len() && out[i] == r,
        forall|i: int| 0 <= i < out.len() && #[trigger] out[i].route == r.route ==> out[i] == r,
{
    assert(m.insert(r.route, r).dom().contains(r.route));
    let w = choose|i: int| 0 <= i < out.len() && out[i].route == r.route;
    assert(out[w] == m.insert(r.route, r)[r.route]);
    assert(out[w] == r);
}

/// Law: after a route is deleted, a snapshot that lists the store contains
/// no entry under the deleted name.
pub proof fn lemma_deleted_route_not_listed(
    m: Map<Seq<char>, RouteView>,
    name: Seq<char>,
    out: Seq<RouteView>,
)
    requires
        forall|i: int| #![auto]
            0 <= i < out.len() ==> m.remove(name).dom().contains(out[i].route),
    ensures
        forall|i: int| 0 <= i < out.len() ==> #[trigger] out[i].route != name,
{
}

/// Law: editing never renames: the record an edit stores under a name
/// carries that very name, so the store's keys still all match their
/// records after any edit.
pub proof fn lemma_edit_keeps_name(
    m: Map<Seq<char>, RouteView>,
    name: Seq<char>,
    rq: RequestView,
    rs: ResponseView,
)
    ensures
        m.insert(
            name,
            RouteView { route: name, request: rq, expected_response: rs },
        )[name].route == name,
        m.insert(name, RouteView { route: name, request: rq, expected_response: rs }).dom()
            =~= m.dom().insert(name),
{
}

} // verus!
