//! The search itself: a table of display names, and the depth-first walk that
//! collects one line for every route to the searched name.

use vstd::prelude::*;
use vstd::hash_map::StringHashMap;
use vstd::string::*;
use crate::graph::{Id, PackageId, Resolve};
use crate::metadata::{lemma_name_table_push, name_table, package_views, Package};
use crate::render::{arrow, chain, label, lemma_chain_push, line, lines, lines_from_roots};
use crate::routes::{expands, frontier, lemma_step_uses_a_node, routes, routes_through, unvisited};
use crate::text::{same_text, texts};

verus! {

/// The identities that a history of package references stands for.
pub open spec fn ids(history: Seq<&PackageId>) -> Seq<Id> {
    history.map_values(|p: &PackageId| p@)
}

/// The identities that a list of packages stands for.
pub open spec fn root_ids(roots: Seq<PackageId>) -> Seq<Id> {
    roots.map_values(|p: PackageId| p@)
}

/// A search session: the table of display names, filled once before any search
/// and only read afterwards.
pub struct Search {
    name_store: StringHashMap<String>,
}

impl View for Search {
    type V = Map<Id, Seq<char>>;

    /// The display name recorded for each identity.
    closed spec fn view(&self) -> Map<Id, Seq<char>> {
        self.name_store@.map_values(|name: String| name@)
    }
}

impl Default for Search {
    /// A session that knows no display name yet.
    fn default() -> (search: Search)
        ensures
            search@ == Map::<Id, Seq<char>>::empty(),
    {
        Search::new()
    }
}

impl Search {
    /// A session that knows no display name yet.
    pub fn new() -> (search: Search)
        ensures
            search@ == Map::<Id, Seq<char>>::empty(),
    {
        let search = Search { name_store: StringHashMap::new() };
        search
    }

    /// The session for a list of reported packages: every one of them has its
    /// display name recorded, the last report winning where an identity is
    /// reported more than once.
    pub fn with_packages(packages: &Vec<Package>) -> (search: Search)
        ensures
            search@ == name_table(package_views(packages@)),
    {
        let mut search = Search::new();
        let mut i: usize = 0;
        while i < packages.len()
            invariant
                i <= packages.len(),
                search@ == name_table(package_views(packages@).take(i as int)),
            decreases packages.len() - i,
        {
            let package = &packages[i];
            proof {
                lemma_name_table_push(package_views(packages@).take(i as int), package@);
                assert(package_views(packages@).take(i as int).push(package@) =~= package_views(
                    packages@,
                ).take(i + 1));
            }
            search.insert(package.id.clone(), package.name.clone());
            i += 1;
        }
        assert(package_views(packages@).take(i as int) =~= package_views(packages@));
        search
    }

    /// Records `name` as the display name of `id`, in place of any name that
    /// was recorded for it before.
    pub fn insert(&mut self, id: PackageId, name: String)
        ensures
            final(self)@ == old(self)@.insert(id@, name@),
    {
        self.name_store.insert(id.repr, name);
    }

    /// What is written for `id`: its display name where one is recorded, else
    /// the text of the identity.
    pub fn display_name<'a>(&'a self, id: &'a PackageId) -> (text: &'a str)
        ensures
            text@ == label(self@, id@),
    {
        match self.name_store.get(id.repr.as_str()) {
            Some(name) => name.as_str(),
            None => id.repr.as_str(),
        }
    }

    /// Writes the line for the route `history`: the label of each of its
    /// packages followed by `" -> "`, then `target`.
    pub fn render(&self, history: &Vec<&PackageId>, target: &str) -> (text: String)
        ensures
            text@ == line(self@, ids(history@), target@),
    {
        let mut text = String::new();
        let mut i: usize = 0;
        while i < history.len()
            invariant
                i <= history.len(),
                text@ == chain(self@, ids(history@).take(i as int)),
            decreases history.len() - i,
        {
            let shown = self.display_name(history[i]);
            proof {
                reveal_strlit(" -> ");
                lemma_chain_push(self@, ids(history@).take(i as int), history@[i as int]@);
                assert(ids(history@).take(i as int).push(history@[i as int]@) =~= ids(
                    history@,
                ).take(i + 1));
            }
            text.append(shown);
            text.append(" -> ");
            i += 1;
        }
        assert(ids(history@).take(i as int) =~= ids(history@));
        text.append(target);
        text
    }

    /// Whether the last package of `history` already stands earlier in it.
    pub(crate) fn revisits(history: &Vec<&PackageId>) -> (seen: bool)
        requires
            history@.len() > 0,
        ensures
            seen == ids(history@).drop_last().contains(ids(history@).last()),
    {
        let last = history.len() - 1;
        let ghost path = ids(history@);
        let mut i: usize = 0;
        while i < last
            invariant
                i <= last,
                last == history.len() - 1,
                path == ids(history@),
                forall|j: int| 0 <= j < i ==> path[j] != path[last as int],
            decreases last - i,
        {
            if history[i].same(history[last]) {
                assert(path.drop_last()[i as int] == path.last());
                return true;
            }
            i += 1;
        }
        false
    }

    /// Collects the line of every route that leads from `history` to an edge
    /// whose declared name is `target`, depth first and in edge order.
    ///
    /// Nothing is found from an empty history, from one whose last package
    /// already stands earlier in it, or from one whose last package has no node
    /// in `resolve`. Otherwise each edge of that node is taken in turn: an edge
    /// declared as `target` gives the line of `history` itself, any other edge
    /// gives what is found from `history` extended by the edge's package.
    pub fn search(
        &self,
        history: Vec<&PackageId>,
        resolve: &Resolve,
        target: &str,
    ) -> (found: Vec<String>)
        ensures
            texts(found@) == lines(self@, resolve@, ids(history@), target@),
        decreases unvisited(resolve@, ids(history@).drop_last()).len(),
    {
        let mut found: Vec<String> = Vec::new();
        let ghost path = ids(history@);
        let ghost as_line = |route: Seq<Id>| line(self@, route, target@);
        if history.len() == 0 {
            return found;
        }
        let curr = history[history.len() - 1];
        if Self::revisits(&history) {
            return found;
        }
        let node = match resolve.find(curr) {
            Some(node) => node,
            None => {
                return found;
            },
        };
        let mut k: usize = 0;
        while k < node.deps.len()
            invariant
                k <= node.deps.len(),
                path == ids(history@),
                expands(resolve@, path),
                node@.deps == frontier(resolve@, path),
                as_line == |route: Seq<Id>| line(self@, route, target@),
                texts(found@) == routes_through(resolve@, path, target@, k as nat).map_values(
                    as_line,
                ),
            decreases node.deps.len() - k,
        {
            let dep = &node.deps[k];
            let ghost earlier = routes_through(resolve@, path, target@, k as nat);
            if same_text(dep.name.as_str(), target) {
                let text = self.render(&history, target);
                found.push(text);
                proof {
                    assert(earlier.push(path).map_values(as_line) =~= earlier.map_values(
                        as_line,
                    ).push(as_line(path)));
                }
            } else {
                let mut longer = history.clone();
                longer.push(&dep.pkg);
                proof {
                    assert(ids(longer@) =~= path.push(dep@.pkg));
                    lemma_step_uses_a_node(resolve@, path, dep@.pkg);
                }
                let mut deeper = self.search(longer, resolve, target);
                let ghost below = routes(resolve@, path.push(dep@.pkg), target@);
                found.append(&mut deeper);
                proof {
                    assert((earlier + below).map_values(as_line) =~= earlier.map_values(as_line)
                        + below.map_values(as_line));
                }
            }
            k += 1;
        }
        found
    }

    /// Searches from each of `roots` in turn, each with a history of its own
    /// that holds the root alone, and collects the lines in that order.
    pub fn search_roots(
        &self,
        roots: &Vec<PackageId>,
        resolve: &Resolve,
        target: &str,
    ) -> (found: Vec<String>)
        ensures
            texts(found@) == lines_from_roots(self@, resolve@, root_ids(roots@), target@),
    {
        let mut found: Vec<String> = Vec::new();
        let ghost from_root = |root: Id| lines(self@, resolve@, seq![root], target@);
        let mut i: usize = 0;
        while i < roots.len()
            invariant
                i <= roots.len(),
                from_root == |root: Id| lines(self@, resolve@, seq![root], target@),
                texts(found@) == root_ids(roots@).take(i as int).map_values(from_root).flatten(),
            decreases roots.len() - i,
        {
            let ghost done = root_ids(roots@).take(i as int).map_values(from_root);
            let history: Vec<&PackageId> = vec![&roots[i]];
            assert(ids(history@) =~= seq![roots@[i as int]@]);
            let mut lines = self.search(history, resolve, target);
            found.append(&mut lines);
            proof {
                assert(root_ids(roots@).take(i + 1).map_values(from_root) =~= done.push(
                    from_root(roots@[i as int]@),
                ));
                done.lemma_flatten_push(from_root(roots@[i as int]@));
            }
            i += 1;
        }
        assert(root_ids(roots@).take(i as int) =~= root_ids(roots@));
        found
    }
}

} // verus!
