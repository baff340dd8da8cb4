//! Named collections of tile kinds, and the list of collections in use.
use vstd::prelude::*;
use crate::tiles::{TileData, TileSpec};

verus! {

/// The kinds of a list of tiles.
pub open spec fn kinds(v: Seq<TileData>) -> Seq<TileSpec> {
    v.map_values(|t: TileData| t@)
}

/// A named list of tile kinds.
pub struct TileCollection {
    name: String,
    tiles: Vec<TileData>,
}

impl TileCollection {
    /// The collection's name.
    pub closed spec fn name_spec(&self) -> Seq<char> {
        self.name@
    }

    /// The collection's tile kinds, by id.
    pub closed spec fn tiles_spec(&self) -> Seq<TileSpec> {
        kinds(self.tiles@)
    }

    /// The collection renamed `name`.
    pub fn with_name(self, name: String) -> (r: Self)
        ensures
            r.name_spec() == name@,
            r.tiles_spec() == self.tiles_spec(),
    {
        let mut s = self;
        s.name = name;
        s
    }

    /// An empty collection named `name`.
    pub fn new(name: String) -> (r: Self)
        ensures
            r.name_spec() == name@,
            r.tiles_spec() == Seq::<TileSpec>::empty(),
    {
        let r = TileCollection { name, tiles: Vec::new() };
        assert(r.tiles_spec() =~= Seq::<TileSpec>::empty());
        r
    }

    /// The tile kind with id `index`, if any.
    pub fn get(&self, index: usize) -> (r: Option<&TileData>)
        ensures
            r matches Option::Some(t) ==> index < self.tiles_spec().len() && t@ == self.tiles_spec()[index as int],
            r is None ==> index >= self.tiles_spec().len(),
    {
        if index < self.tiles.len() {
            Some(&self.tiles[index])
        } else {
            None
        }
    }

    /// The collection's name.
    pub fn name(&self) -> (r: String)
        ensures
            r@ == self.name_spec(),
    {
        self.name.clone()
    }

    /// The tile kinds, by id.
    pub fn iter(&self) -> (r: &Vec<TileData>)
        ensures
            kinds(r@) == self.tiles_spec(),
    {
        &self.tiles
    }

    /// A copy of the tile kinds, by id.
    pub fn into_iter(&self) -> (r: Vec<TileData>)
        ensures
            kinds(r@) == self.tiles_spec(),
    {
        copy_tiles(&self.tiles)
    }

    /// Moves the tile kinds of `rh` to the end of the collection, leaving `rh` empty.
    pub fn append(&mut self, rh: &mut Vec<TileData>)
        ensures
            final(self).tiles_spec() == old(self).tiles_spec() + kinds(old(rh)@),
            final(self).name_spec() == old(self).name_spec(),
            final(rh)@.len() == 0,
    {
        let ghost a = self.tiles@;
        let ghost b = rh@;
        self.tiles.append(rh);
        assert(kinds(self.tiles@) =~= kinds(a) + kinds(b));
    }

    /// Moves the tile kinds of `rh` to the end of the collection, leaving `rh`
    /// without tile kinds.
    pub fn extend(&mut self, rh: &mut TileCollection)
        ensures
            final(self).tiles_spec() == old(self).tiles_spec() + old(rh).tiles_spec(),
            final(self).name_spec() == old(self).name_spec(),
            final(rh).tiles_spec().len() == 0,
            final(rh).name_spec() == old(rh).name_spec(),
    {
        self.append(&mut rh.tiles);
    }

    /// The collection with the tile kinds of `rh` moved to its end.
    pub fn extended(self, rh: &mut TileCollection) -> (r: Self)
        ensures
            r.tiles_spec() == self.tiles_spec() + old(rh).tiles_spec(),
            r.name_spec() == self.name_spec(),
            final(rh).tiles_spec().len() == 0,
            final(rh).name_spec() == old(rh).name_spec(),
    {
        let mut s = self;
        s.extend(rh);
        s
    }

    /// A copy of the collection.
    pub fn duplicate(&self) -> (r: Self)
        ensures
            r.name_spec() == self.name_spec(),
            r.tiles_spec() == self.tiles_spec(),
    {
        TileCollection { name: self.name.clone(), tiles: copy_tiles(&self.tiles) }
    }
}

/// A copy of a list of tile kinds.
fn copy_tiles(v: &Vec<TileData>) -> (r: Vec<TileData>)
    ensures
        kinds(r@) == kinds(v@),
{
    let mut r: Vec<TileData> = Vec::new();
    let mut i: usize = 0;
    while i < v.len()
        invariant
            i <= v@.len(),
            r@.len() == i,
            kinds(r@) == kinds(v@).take(i as int),
        decreases v@.len() - i,
    {
        let t = v[i].clone();
        let ghost prev = r@;
        r.push(t);
        proof {
            assert(r@ == prev.push(t));
            assert forall|j: int| 0 <= j < r@.len() implies #[trigger] kinds(r@)[j] == kinds(v@).take(i + 1)[j] by {
                if j < i {
                    assert(kinds(prev)[j] == kinds(v@).take(i as int)[j]);
                } else {
                    assert(r@[j] == t);
                    assert(kinds(r@)[j] == t@);
                    assert(kinds(v@)[j] == v@[j]@);
                }
            }
        }
        i = i + 1;
        assert(kinds(r@) =~= kinds(v@).take(i as int));
    }
    assert(kinds(v@).take(i as int) =~= kinds(v@));
    r
}

/// Each collection's name and tile kinds.
pub open spec fn summaries(v: Seq<TileCollection>) -> Seq<(Seq<char>, Seq<TileSpec>)> {
    v.map_values(|c: TileCollection| (c.name_spec(), c.tiles_spec()))
}

/// The tile collections in use, by id.
pub struct TilesCollections {
    collections: Vec<TileCollection>,
}

impl TilesCollections {
    /// The collections, by id: each one's name and tile kinds.
    pub closed spec fn view_list(&self) -> Seq<(Seq<char>, Seq<TileSpec>)> {
        summaries(self.collections@)
    }

    /// No collections.
    pub fn new() -> (r: Self)
        ensures
            r.view_list() == Seq::<(Seq<char>, Seq<TileSpec>)>::empty(),
    {
        let r = TilesCollections { collections: Vec::new() };
        assert(r.view_list() =~= Seq::<(Seq<char>, Seq<TileSpec>)>::empty());
        r
    }

    /// Adds a collection; returns its id.
    pub fn add(&mut self, atlas: TileCollection) -> (id: usize)
        requires
            old(self).view_list().len() < usize::MAX,
        ensures
            final(self).view_list() == old(self).view_list().push((atlas.name_spec(), atlas.tiles_spec())),
            id == old(self).view_list().len(),
    {
        let ghost e = (atlas.name_spec(), atlas.tiles_spec());
        self.collections.push(atlas);
        assert(self.view_list() =~= old(self).view_list().push(e));
        self.collections.len() - 1
    }

    /// The collection with id `index`, if any.
    pub fn get(&self, index: usize) -> (r: Option<&TileCollection>)
        ensures
            r matches Option::Some(c) ==> index < self.view_list().len()
                && (c.name_spec(), c.tiles_spec()) == self.view_list()[index as int],
            r is None ==> index >= self.view_list().len(),
    {
        if index < self.collections.len() {
            Some(&self.collections[index])
        } else {
            None
        }
    }

    /// A copy of tile kind `tile_id` of collection `collection_id`, if both exist.
    pub fn get_tile(&self, collection_id: usize, tile_id: usize) -> (r: Option<TileData>)
        ensures
            r matches Option::Some(t) ==> collection_id < self.view_list().len()
                && tile_id < self.view_list()[collection_id as int].1.len()
                && t@ == self.view_list()[collection_id as int].1[tile_id as int],
            r is None ==> !(collection_id < self.view_list().len()
                && tile_id < self.view_list()[collection_id as int].1.len()),
    {
        match self.get(collection_id) {
            Some(collection) => match collection.get(tile_id) {
                Some(t) => Some(t.clone()),
                None => None,
            },
            None => None,
        }
    }

    /// The collections, by id.
    pub fn iter(&self) -> (r: &Vec<TileCollection>)
        ensures
            summaries(r@) == self.view_list(),
    {
        &self.collections
    }

    /// A copy of the collections, by id.
    pub fn into_iter(&self) -> (r: Vec<TileCollection>)
        ensures
            summaries(r@) == self.view_list(),
    {
        let ghost target = self.view_list();
        let mut r: Vec<TileCollection> = Vec::new();
        let mut i: usize = 0;
        while i < self.collections.len()
            invariant
                target == self.view_list(),
                i <= self.collections@.len(),
                r@.len() == i,
                summaries(r@) == target.take(i as int),
            decreases self.collections@.len() - i,
        {
            let c = self.collections[i].duplicate();
            let ghost prev = r@;
            r.push(c);
            proof {
                assert(r@ == prev.push(c));
                assert(summaries(prev) == target.take(i as int));
                assert forall|j: int| 0 <= j < r@.len() implies #[trigger] summaries(r@)[j] == target.take(i + 1)[j] by {
                    if j < i {
                        assert(summaries(prev)[j] == target.take(i as int)[j]);
                    } else {
                        assert(r@[j] == c);
                        assert(summaries(r@)[j] == (c.name_spec(), c.tiles_spec()));
                        assert(target[j] == (self.collections@[j].name_spec(), self.collections@[j].tiles_spec()));
                    }
                }
            }
            i = i + 1;
            assert(summaries(r@) =~= target.take(i as int));
        }
        assert(target.take(i as int) =~= target);
        r
    }
}

impl Default for TilesCollections {
    fn default() -> (r: Self)
        ensures
            r.view_list() == Seq::<(Seq<char>, Seq<TileSpec>)>::empty(),
    {
        TilesCollections::new()
    }
}

/// A collection registered under the next id is found under that id, and the
/// collections registered before keep their ids.
pub proof fn lemma_added_collection_found(list: Seq<(Seq<char>, Seq<TileSpec>)>, entry: (Seq<char>, Seq<TileSpec>), i: int)
    requires
        0 <= i < list.len(),
    ensures
        list.push(entry).len() == list.len() + 1,
        list.push(entry)[list.len() as int] == entry,
        list.push(entry)[i] == list[i],
{
}

/// A tile kind appended to a collection registered under an id is found
/// under that id, after the kinds it already had.
pub proof fn lemma_added_tile_found(list: Seq<(Seq<char>, Seq<TileSpec>)>, name: Seq<char>, tiles: Seq<TileSpec>,
    extra: Seq<TileSpec>, k: int)
    requires
        0 <= k < extra.len(),
    ensures
        ({
            let l2 = list.push((name, tiles + extra));
            let id = list.len() as int;
            &&& l2[id].1.len() == tiles.len() + extra.len()
            &&& l2[id].1[tiles.len() + k] == extra[k]
        }),
{
}

} // verus!
