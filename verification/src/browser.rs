//! The browsing session: the catalog's records by code, its tree, and what each key does.

use vstd::prelude::*;
use vstd::hash_map::StringHashMap;
use crate::catalog::{build_tree, built_forest, codes_well_formed, Goods};
use crate::code::{encode, vec_2_code};
use crate::error::CatalogError;
use crate::state::{initial_state, step, Intent};
use crate::stateful::StatefulTree;

verus! {

/// A key as the session sees it.
#[derive(Clone, Copy, Debug, PartialEq, Eq, Structural)]
pub enum Key {
    Char(char),
    Left,
    Right,
    Up,
    Down,
    Home,
    End,
    Other,
}

/// What the session is to do on a key.
#[derive(Clone, Copy, Debug, PartialEq, Eq, Structural)]
pub enum Command {
    /// End the session.
    Quit,
    /// Carry out the intent on the tree.
    Navigate(Intent),
    /// Nothing.
    Ignore,
}

/// The command that each key stands for: `q` ends the session, a line feed or a space
/// toggles, the arrows step and fold, Home and End jump; every other key is ignored.
pub open spec fn command_of(key: Key) -> Command {
    match key {
        Key::Char(c) => if c == 'q' {
            Command::Quit
        } else if c == '\n' || c == ' ' {
            Command::Navigate(Intent::Toggle)
        } else {
            Command::Ignore
        },
        Key::Left => Command::Navigate(Intent::Left),
        Key::Right => Command::Navigate(Intent::Right),
        Key::Down => Command::Navigate(Intent::Down),
        Key::Up => Command::Navigate(Intent::Up),
        Key::Home => Command::Navigate(Intent::First),
        Key::End => Command::Navigate(Intent::Last),
        Key::Other => Command::Ignore,
    }
}

/// The records of `goods` by their codes; of two records with one code the later stays.
pub open spec fn goods_by_code(goods: Seq<Goods>) -> Map<Seq<char>, Goods>
    decreases goods.len(),
{
    if goods.len() == 0 {
        Map::empty()
    } else {
        goods_by_code(goods.drop_last()).insert(goods.last().code@, goods.last())
    }
}

/// The command that `key` stands for.
pub fn command_for_key(key: Key) -> (command: Command)
    ensures
        command == command_of(key),
{
    match key {
        Key::Char('q') => Command::Quit,
        Key::Char('\n') | Key::Char(' ') => Command::Navigate(Intent::Toggle),
        Key::Left => Command::Navigate(Intent::Left),
        Key::Right => Command::Navigate(Intent::Right),
        Key::Down => Command::Navigate(Intent::Down),
        Key::Up => Command::Navigate(Intent::Up),
        Key::Home => Command::Navigate(Intent::First),
        Key::End => Command::Navigate(Intent::Last),
        _ => Command::Ignore,
    }
}

/// A catalog that is being browsed.
pub struct App {
    pub goods_map: StringHashMap<Goods>,
    pub tree: StatefulTree,
}

impl App {
    /// The session over the records of `goods_list`: their tree with nothing selected, and
    /// the records themselves by code. One malformed code fails it.
    pub fn new(goods_list: Vec<Goods>) -> (result: Result<App, CatalogError>)
        ensures
            codes_well_formed(goods_list@) ==> result is Ok && result->Ok_0.tree.forest()
                == built_forest(goods_list@) && result->Ok_0.tree.state@ == initial_state()
                && result->Ok_0.goods_map@ == goods_by_code(goods_list@),
            !codes_well_formed(goods_list@) ==> result is Err && result->Err_0
                == CatalogError::MalformedCode,
    {
        let tree = match build_tree(&goods_list) {
            Ok(tree) => tree,
            Err(e) => {
                return Err(e);
            },
        };
        let mut goods_map: StringHashMap<Goods> = StringHashMap::new();
        let ghost all = goods_list@;
        for goods in it: goods_list
            invariant
                it.seq() == all,
                goods_map@ == goods_by_code(all.take(it.index() as int)),
        {
            let code = goods.code.clone();
            goods_map.insert(code, goods);
            assert(all.take(it.index() + 1).drop_last() =~= all.take(it.index() as int));
        }
        assert(all.take(all.len() as int) =~= all);
        Ok(App { goods_map, tree })
    }

    /// The record whose code is the code of the selected path, where there is one.
    pub fn selected_goods(&self) -> (found: Option<&Goods>)
        ensures
            ({
                let code = encode(self.tree.state@.selected);
                match found {
                    Some(goods) => self.goods_map@.contains_key(code) && *goods
                        == self.goods_map@[code],
                    None => !self.goods_map@.contains_key(code),
                }
            }),
    {
        let code = vec_2_code(&self.tree.state.selected());
        self.goods_map.get(code.as_str())
    }

    /// Carries out what `key` stands for, and says whether the session is to end.
    pub fn handle_key(&mut self, key: Key) -> (quit: bool)
        ensures
            quit == (command_of(key) == Command::Quit),
            final(self).goods_map == old(self).goods_map,
            final(self).tree.items == old(self).tree.items,
            final(self).tree.state@ == match command_of(key) {
                Command::Navigate(intent) => step(
                    old(self).tree.forest(),
                    old(self).tree.state@,
                    intent,
                ),
                _ => old(self).tree.state@,
            },
    {
        match command_for_key(key) {
            Command::Quit => true,
            Command::Navigate(intent) => {
                self.tree.apply(intent);
                false
            },
            Command::Ignore => false,
        }
    }
}

} // verus!
