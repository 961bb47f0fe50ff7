//! The GOG library: what the account owns.

use vstd::prelude::*;

use crate::config::Paths;
use crate::error::{Error, Result};
use crate::http::{find_char, first_index_of, lemma_first_index_of, HttpClient, Response};
use crate::json::{
    item_leaves, json_items_at, json_members_at, member, member_leaf, member_leaves, members_at, items_at,
    optional_text, optional_text_leaf, whole_number, whole_number_of, Leaf, Scalar,
};
use crate::order::{compare_bytes, lemma_lex_transitive, lemma_lex_trichotomy, lex_lt, Cmp};
use crate::text::{
    chars_of, decimal, decimal_string, join_path, joined, joined_path, owned, slice_chars, string_of,
    trim_chars, trimmed,
};
use vstd::utf8::*;
use crate::time::Timestamp;

verus! {

/// The identifier every other part of gamestore keys a game on.
///
/// GOG's product id, kept as a string: it is numeric today, and a newtype around a
/// string keeps it from being confused with the Steam appid, which is a different
/// number for the same game and is derived, not owned.
#[derive(Debug, Clone, PartialEq, Eq, PartialOrd, Ord, Hash)]
pub struct ProductId(String);

impl View for ProductId {
    type V = Seq<char>;

    closed spec fn view(&self) -> Seq<char> {
        self.0@
    }
}

impl ProductId {
    /// Wrap an id.
    pub fn new(id: &str) -> (product: ProductId)
        ensures
            product@ == id@,
    {
        ProductId(owned(id))
    }

    /// The id as text.
    pub fn as_str(&self) -> (id: &str)
        ensures
            id@ == self@,
    {
        self.0.as_str()
    }

    /// Another id equal to this one.
    pub fn duplicate(&self) -> (product: ProductId)
        ensures
            product == *self,
    {
        ProductId(self.0.clone())
    }
}

/// The operating systems a product ships builds for.
#[derive(Debug, Clone, Copy, PartialEq, Eq, Structural, PartialOrd, Ord)]
pub enum Os {
    Windows,
    Mac,
    Linux,
}

/// One owned game.
#[derive(Debug, Clone, PartialEq, Eq)]
pub struct Game {
    /// The key the registry and everything else use.
    pub id: ProductId,
    /// Title as GOG spells it, which is what the tile shows.
    pub title: String,
    /// URL-safe name.
    pub slug: String,
    /// Cover image URL as GOG gives it, if any.
    pub image: Option<String>,
    /// Which platforms GOG has builds for, sorted.
    pub runs_on: Vec<Os>,
}

impl Game {
    /// Whether GOG ships a Windows build, which is the one installed under Proton.
    pub fn has_windows_build(&self) -> (windows: bool)
        ensures
            windows == self.runs_on@.contains(Os::Windows),
    {
        let mut i: usize = 0;
        while i < self.runs_on.len()
            invariant
                i <= self.runs_on@.len(),
                forall|j: int| 0 <= j < i ==> self.runs_on@[j] != Os::Windows,
            decreases self.runs_on@.len() - i,
        {
            if self.runs_on[i] == Os::Windows {
                return true;
            }
            i = i + 1;
        }
        false
    }
}

/// The owned library, as last fetched.
#[derive(Debug, Clone, PartialEq, Eq)]
pub struct Catalog {
    /// When this was fetched, so the UI can say how stale it is.
    pub fetched_at: Timestamp,
    /// Owned games, sorted by title so the grid order does not depend on GOG's.
    pub games: Vec<Game>,
}

/// What lowercasing `text` gives, as `str::to_lowercase` does it: by the Unicode
/// case mappings, which can change a character into several.
pub uninterp spec fn lowercase(text: Seq<char>) -> Seq<char>;

/// `text` in lowercase.
///
/// Trusted: `str::to_lowercase`, whose result depends on the text alone.
#[verifier::external_body]
pub(crate) fn to_lowercase(text: &str) -> (lower: String)
    ensures
        lower@ == lowercase(text@),
{
    text.to_lowercase()
}

/// Whether `needle` occurs in `text`.
pub open spec fn contains_text(text: Seq<char>, needle: Seq<char>) -> bool {
    exists|i: int| 0 <= i && i + needle.len() <= text.len() && #[trigger] text.subrange(i, i + needle.len()) == needle
}

/// Whether `needle` occurs in `text`.
fn find_text(text: &[char], needle: &[char]) -> (found: bool)
    ensures
        found == contains_text(text@, needle@),
{
    if needle.len() > text.len() {
        proof {
            assert forall|i: int| 0 <= i && i + needle@.len() <= text@.len() implies #[trigger] text@.subrange(i, i + needle@.len()) != needle@ by {}
        }
        return false;
    }
    let text_len = text.len();
    let last = text_len - needle.len();
    let mut i: usize = 0;
    while i <= last
        invariant
            last == text@.len() - needle@.len(),
            text_len == text@.len(),
            needle@.len() <= text@.len(),
            i <= last + 1,
            forall|k: int| 0 <= k < i ==> #[trigger] text@.subrange(k, k + needle@.len()) != needle@,
        decreases last + 1 - i,
    {
        let mut j: usize = 0;
        let mut matching = true;
        while matching && j < needle.len()
            invariant
                j <= needle@.len(),
                needle@.len() <= text@.len(),
                text_len == text@.len(),
                i <= last,
                last == text@.len() - needle@.len(),
                forall|k: int| 0 <= k < j ==> text@[i + k] == needle@[k],
                !matching ==> j < needle@.len() && text@[i + j] != needle@[j as int],
            decreases needle@.len() - j + if matching { 1int } else { 0int },
        {
            if text[i + j] == needle[j] {
                j = j + 1;
            } else {
                matching = false;
            }
        }
        if j == needle.len() {
            assert(text@.subrange(i as int, i + needle@.len()) =~= needle@);
            return true;
        }
        assert(text@.subrange(i as int, i + needle@.len())[j as int] != needle@[j as int]);
        i = i + 1;
    }
    false
}

/// The games whose lowercased title contains `needle`, in order.
pub open spec fn titles_matching(games: Seq<Game>, needle: Seq<char>) -> Seq<Game>
    decreases games.len(),
{
    if games.len() == 0 {
        Seq::empty()
    } else {
        let earlier = titles_matching(games.drop_last(), needle);
        if contains_text(lowercase(games.last().title@), needle) {
            earlier.push(games.last())
        } else {
            earlier
        }
    }
}

/// What the search box finds for `needle`: every game when the trimmed needle is
/// empty, else the games whose lowercased title contains the lowercased, trimmed
/// needle.
pub open spec fn search_results(games: Seq<Game>, needle: Seq<char>) -> Seq<Game> {
    let wanted = lowercase(trimmed(needle));
    if wanted.len() == 0 {
        games
    } else {
        titles_matching(games, wanted)
    }
}

/// The first game with `id`.
pub open spec fn game_position(games: Seq<Game>, id: Seq<char>) -> Option<int>
    decreases games.len(),
{
    if games.len() == 0 {
        None
    } else {
        match game_position(games.drop_last(), id) {
            Some(i) => Some(i),
            None => if games.last().id@ == id {
                Some(games.len() - 1)
            } else {
                None
            },
        }
    }
}

/// The first game with an id is the first index holding it.
pub proof fn lemma_game_position(games: Seq<Game>, id: Seq<char>)
    ensures
        game_position(games, id) matches Some(i) ==> 0 <= i < games.len() && games[i].id@ == id && forall|j: int|
            0 <= j < i ==> (#[trigger] games[j]).id@ != id,
        game_position(games, id) is None ==> forall|j: int| 0 <= j < games.len() ==> (#[trigger] games[j]).id@ != id,
    decreases games.len(),
{
    if games.len() > 0 {
        let front = games.drop_last();
        lemma_game_position(front, id);
        assert forall|j: int| 0 <= j < front.len() implies front[j] == games[j] by {}
    }
}

/// Whether two ids are the same.
fn same_id(a: &ProductId, b: &ProductId) -> (same: bool)
    ensures
        same == (a@ == b@),
{
    let x = chars_of(a.as_str());
    let y = chars_of(b.as_str());
    crate::text::same_chars(x.as_slice(), y.as_slice())
}

impl Catalog {
    /// An empty catalog, as if it had just been fetched at `now`.
    pub fn empty(now: Timestamp) -> (catalog: Catalog)
        ensures
            catalog.fetched_at == now,
            catalog.games@.len() == 0,
    {
        Catalog { fetched_at: now, games: Vec::new() }
    }

    /// How many games are owned.
    pub fn len(&self) -> (count: usize)
        ensures
            count == self.games@.len(),
    {
        self.games.len()
    }

    /// Whether the library is empty.
    pub fn is_empty(&self) -> (empty: bool)
        ensures
            empty == (self.games@.len() == 0),
    {
        self.games.len() == 0
    }

    /// Look a game up by the id everything else keys on.
    pub fn get(&self, id: &ProductId) -> (game: Option<&Game>)
        ensures
            match game {
                Some(found) => game_position(self.games@, id@) matches Some(i) && *found == self.games@[i],
                None => game_position(self.games@, id@) is None,
            },
    {
        proof {
            lemma_game_position(self.games@, id@);
        }
        let mut i: usize = 0;
        while i < self.games.len()
            invariant
                i <= self.games@.len(),
                forall|j: int| 0 <= j < i ==> (#[trigger] self.games@[j]).id@ != id@,
            decreases self.games@.len() - i,
        {
            if same_id(&self.games[i].id, id) {
                proof {
                    lemma_game_position(self.games@, id@);
                }
                return Some(&self.games[i]);
            }
            i = i + 1;
        }
        proof {
            lemma_game_position(self.games@, id@);
        }
        None
    }

    /// Games whose title contains `needle`, ignoring case and surrounding white
    /// space; every game when there is nothing to look for.
    ///
    /// This is what the grid's search box calls; it is deliberately a plain
    /// substring match, since the on-screen keyboard makes anything more elaborate
    /// slower to drive rather than faster.
    pub fn search(&self, needle: &str) -> (found: Vec<&Game>)
        ensures
            found@.len() == search_results(self.games@, needle@).len(),
            forall|i: int| 0 <= i < found@.len() ==> *(#[trigger] found@[i]) == search_results(self.games@, needle@)[i],
    {
        let trimmed_needle = string_of(trim_chars(chars_of(needle).as_slice()).as_slice());
        let wanted = to_lowercase(trimmed_needle.as_str());
        let wanted = chars_of(wanted.as_str());
        let everything = wanted.len() == 0;
        let mut found: Vec<&Game> = Vec::new();
        let mut i: usize = 0;
        proof {
            assert(self.games@.take(0) =~= Seq::<Game>::empty());
        }
        while i < self.games.len()
            invariant
                i <= self.games@.len(),
                wanted@ == lowercase(trimmed(needle@)),
                everything == (wanted@.len() == 0),
                found@.len() == (if everything {
                    self.games@.take(i as int)
                } else {
                    titles_matching(self.games@.take(i as int), wanted@)
                }).len(),
                forall|k: int| 0 <= k < found@.len() ==> *(#[trigger] found@[k]) == (if everything {
                    self.games@.take(i as int)
                } else {
                    titles_matching(self.games@.take(i as int), wanted@)
                })[k],
            decreases self.games@.len() - i,
        {
            let game = &self.games[i];
            proof {
                assert(self.games@.take(i + 1).drop_last() =~= self.games@.take(i as int));
                assert(self.games@.take(i + 1).last() == *game);
            }
            let keep = if everything {
                true
            } else {
                let title = to_lowercase(game.title.as_str());
                find_text(chars_of(title.as_str()).as_slice(), wanted.as_slice())
            };
            if keep {
                found.push(game);
            }
            i = i + 1;
        }
        proof {
            assert(self.games@.take(i as int) =~= self.games@);
        }
        found
    }

    /// Where the cached copy lives.
    pub fn cache_file(paths: &Paths) -> (path: String)
        ensures
            path@ == joined_path(paths.cache_dir@, "catalog.json"@),
    {
        join_path(paths.cache_dir.as_str(), "catalog.json")
    }
}


// ---------------------------------------------------------------------------
// Fetching the library.

/// Where the owned-products list comes from.
pub const PRODUCTS_ENDPOINT: &'static str = "https://embed.gog.com/account/getFilteredProducts";

/// The address of one page of owned games; `mediaType=1` is GOG's filter for games,
/// as opposed to films.
pub open spec fn page_address(page: u32) -> Seq<char> {
    PRODUCTS_ENDPOINT@ + "?mediaType=1&page="@ + decimal(page as nat)
}

/// The address of one page of owned games.
pub fn page_url(page: u32) -> (url: String)
    ensures
        url@ == page_address(page),
{
    let number = decimal_string(page as u64);
    let url = joined(PRODUCTS_ENDPOINT, "?mediaType=1&page=");
    joined(url.as_str(), number.as_str())
}

/// The first line of a body, without surrounding white space, for an error message.
pub open spec fn first_line(body: Seq<char>) -> Seq<char> {
    match first_index_of(body, '\n') {
        Some(i) => trimmed(body.take(i)),
        None => trimmed(body),
    }
}

/// The first line of `body`, trimmed.
fn first_line_of(body: &str) -> (line: String)
    ensures
        line@ == first_line(body@),
{
    let chars = chars_of(body);
    match find_char(chars.as_slice(), '\n') {
        Some(i) => {
            proof {
                lemma_first_index_of(chars@, '\n');
            }
            let head = slice_chars(chars.as_slice(), 0, i);
            assert(head@ =~= chars@.take(i as int));
            string_of(trim_chars(head.as_slice()).as_slice())
        },
        None => string_of(trim_chars(chars.as_slice()).as_slice()),
    }
}

/// The operating system a `worksOn` name stands for, ignoring case.
fn os_named(name: &str) -> (os: Option<Os>)
    ensures
        os == (if lowercase(name@) == "windows"@ {
            Some(Os::Windows)
        } else if lowercase(name@) == "mac"@ {
            Some(Os::Mac)
        } else if lowercase(name@) == "linux"@ {
            Some(Os::Linux)
        } else {
            None
        }),
{
    let lower = to_lowercase(name);
    let chars = chars_of(lower.as_str());
    if crate::text::same_chars(chars.as_slice(), chars_of("windows").as_slice()) {
        Some(Os::Windows)
    } else if crate::text::same_chars(chars.as_slice(), chars_of("mac").as_slice()) {
        Some(Os::Mac)
    } else if crate::text::same_chars(chars.as_slice(), chars_of("linux").as_slice()) {
        Some(Os::Linux)
    } else {
        None
    }
}

/// The rank an operating system sorts by.
pub open spec fn os_rank(os: Os) -> int {
    match os {
        Os::Windows => 0,
        Os::Mac => 1,
        Os::Linux => 2,
    }
}

fn rank_of(os: Os) -> (rank: u8)
    ensures
        rank == os_rank(os),
{
    match os {
        Os::Windows => 0,
        Os::Mac => 1,
        Os::Linux => 2,
    }
}

/// Operating systems in their declared order: Windows, then Mac, then Linux.
pub open spec fn sorted_os(systems: Seq<Os>) -> bool {
    forall|i: int, j: int| 0 <= i < j < systems.len() ==> os_rank(#[trigger] systems[i]) <= os_rank(#[trigger] systems[j])
}

/// Sort operating systems, keeping every one.
fn sort_os(systems: Vec<Os>) -> (sorted: Vec<Os>)
    ensures
        sorted@.len() == systems@.len(),
        sorted_os(sorted@),
        sorted@.to_multiset() == systems@.to_multiset(),
{
    let mut sorted: Vec<Os> = Vec::new();
    let mut i: usize = 0;
    proof {
        assert(systems@.take(0) =~= Seq::<Os>::empty());
    }
    while i < systems.len()
        invariant
            i <= systems@.len(),
            sorted@.len() == i,
            sorted_os(sorted@),
            sorted@.to_multiset() == systems@.take(i as int).to_multiset(),
        decreases systems@.len() - i,
    {
        let os = systems[i];
        let rank = rank_of(os);
        let mut p: usize = 0;
        while p < sorted.len() && rank_of(sorted[p]) <= rank
            invariant
                p <= sorted@.len(),
                forall|k: int| 0 <= k < p ==> os_rank(#[trigger] sorted@[k]) <= rank,
            decreases sorted@.len() - p,
        {
            p = p + 1;
        }
        let ghost before = sorted@;
        sorted.insert(p, os);
        proof {
            assert forall|a: int, b: int| 0 <= a < b < sorted@.len() implies os_rank(#[trigger] sorted@[a]) <= os_rank(
                #[trigger] sorted@[b],
            ) by {
                if a < p && b < p {
                    assert(sorted@[a] == before[a] && sorted@[b] == before[b]);
                } else if a < p && b == p {
                    assert(sorted@[a] == before[a]);
                } else if a < p {
                    assert(sorted@[a] == before[a] && sorted@[b] == before[b - 1]);
                } else if a == p {
                    assert(sorted@[b] == before[b - 1]);
                    if p < before.len() {
                        assert(os_rank(before[p as int]) > rank);
                        if b - 1 > p {
                            assert(os_rank(before[p as int]) <= os_rank(before[b - 1]));
                        }
                    }
                } else {
                    assert(sorted@[a] == before[a - 1] && sorted@[b] == before[b - 1]);
                }
            }
            broadcast use vstd::seq_lib::group_to_multiset_ensures;
            assert(systems@.take(i + 1) =~= systems@.take(i as int).push(os));
            assert(before.insert(p as int, os).to_multiset() =~= before.to_multiset().insert(os));
        }
        i = i + 1;
    }
    proof {
        assert(systems@.take(i as int) =~= systems@);
    }
    sorted
}

/// A product as the products endpoint spells it, read into plain values.
pub struct Product {
    /// The id as text, whether GOG sent a number or a string; `None` when it sent
    /// neither.
    pub id: Option<String>,
    pub title: Option<String>,
    pub slug: Option<String>,
    pub image: Option<String>,
    /// The `worksOn` flags, by platform name.
    pub works_on: Vec<(String, bool)>,
}

/// The operating systems a product's flags say it has builds for, in flag order;
/// names that are not Windows, Mac or Linux are skipped.
pub open spec fn supported_os(works_on: Seq<(String, bool)>) -> Seq<Os>
    decreases works_on.len(),
{
    if works_on.len() == 0 {
        Seq::empty()
    } else {
        let earlier = supported_os(works_on.drop_last());
        let (name, supported) = works_on.last();
        let lower = lowercase(name@);
        if !supported {
            earlier
        } else if lower == "windows"@ {
            earlier.push(Os::Windows)
        } else if lower == "mac"@ {
            earlier.push(Os::Mac)
        } else if lower == "linux"@ {
            earlier.push(Os::Linux)
        } else {
            earlier
        }
    }
}

/// Whether a product can be a game: it has an id, and a title that is not blank.
pub open spec fn usable_product(product: Product) -> bool {
    &&& product.id is Some
    &&& product.title matches Some(title) && trimmed(title@).len() > 0
}

/// Whether `game` is what `product` converts to: its id and title, its slug or
/// the empty one, its image when it is not empty, and the operating systems its
/// flags name, in their declared order.
pub open spec fn converts(product: Product, game: Game) -> bool {
    &&& usable_product(product)
    &&& game.id@ == product.id.unwrap()@
    &&& game.title == product.title.unwrap()
    &&& game.slug@ == (match product.slug {
        Some(slug) => slug@,
        None => Seq::empty(),
    })
    &&& game.image == (match product.image {
        Some(image) => if image@.len() > 0 {
            Some(image)
        } else {
            None
        },
        None => None,
    })
    &&& sorted_os(game.runs_on@)
    &&& game.runs_on@.to_multiset() == supported_os(product.works_on@).to_multiset()
}

impl Product {
    /// Convert, or skip: a product with no id or no title is not something the grid
    /// could draw or the installer could act on, and one unusable row should not
    /// cost the user the rest of their library.
    pub fn into_game(self) -> (game: Option<Game>)
        ensures
            game is Some <==> usable_product(self),
            game matches Some(g) ==> converts(self, g),
    {
        let id = match self.id {
            Some(id) => id,
            None => return None,
        };
        let title = match self.title {
            Some(title) => title,
            None => return None,
        };
        if trim_chars(chars_of(title.as_str()).as_slice()).len() == 0 {
            return None;
        }
        let mut runs_on: Vec<Os> = Vec::new();
        let mut i: usize = 0;
        proof {
            assert(self.works_on@.take(0) =~= Seq::<(String, bool)>::empty());
        }
        while i < self.works_on.len()
            invariant
                i <= self.works_on@.len(),
                runs_on@ == supported_os(self.works_on@.take(i as int)),
            decreases self.works_on@.len() - i,
        {
            proof {
                assert(self.works_on@.take(i + 1).drop_last() =~= self.works_on@.take(i as int));
            }
            let (name, supported) = &self.works_on[i];
            if *supported {
                match os_named(name.as_str()) {
                    Some(os) => runs_on.push(os),
                    None => {},
                }
            }
            i = i + 1;
        }
        proof {
            assert(self.works_on@.take(i as int) =~= self.works_on@);
        }
        let slug = match self.slug {
            Some(slug) => slug,
            None => String::new(),
        };
        let image = match self.image {
            Some(image) => if image.as_str().as_bytes().len() > 0 {
                proof {
                    vstd::utf8::encode_utf8_decode_utf8(image@);
                }
                Some(image)
            } else {
                proof {
                    assert(image@.len() == 0) by {
                        if image@.len() > 0 {
                            assert(encode_scalar(image@[0] as u32).len() > 0);
                        }
                    }
                }
                None
            },
            None => None,
        };
        Some(Game { id: ProductId(id), title, slug, image, runs_on: sort_os(runs_on) })
    }
}

/// The mathematical form of a [`Product`]: text as its characters.
pub struct ProductView {
    pub id: Option<Seq<char>>,
    pub title: Option<Seq<char>>,
    pub slug: Option<Seq<char>>,
    pub image: Option<Seq<char>>,
    pub works_on: Seq<(Seq<char>, bool)>,
}

/// Optional text as its characters.
pub open spec fn text_view(text: Option<String>) -> Option<Seq<char>> {
    match text {
        Some(text) => Some(text@),
        None => None,
    }
}

/// A product as its mathematical form.
pub open spec fn product_view(product: Product) -> ProductView {
    ProductView {
        id: text_view(product.id),
        title: text_view(product.title),
        slug: text_view(product.slug),
        image: text_view(product.image),
        works_on: Seq::new(product.works_on@.len(), |i: int| (product.works_on@[i].0@, product.works_on@[i].1)),
    }
}

/// Products as their mathematical forms.
pub open spec fn product_views(products: Seq<Product>) -> Seq<ProductView> {
    Seq::new(products.len(), |i: int| product_view(products[i]))
}

/// The `worksOn` flags, when every one is a boolean.
pub open spec fn flags_read(flags: Seq<(Seq<char>, Leaf)>) -> Option<Seq<(Seq<char>, bool)>>
    decreases flags.len(),
{
    if flags.len() == 0 {
        Some(Seq::empty())
    } else {
        match flags_read(flags.drop_last()) {
            None => None,
            Some(front) => match flags.last().1 {
                Leaf::Bool(flag) => Some(front.push((flags.last().0, flag))),
                _ => None,
            },
        }
    }
}

/// What the `worksOn` member of the product object at `at` reads as: no flags
/// when it is absent, else its flags, which have to be booleans.
pub open spec fn works_on_read(body: Seq<char>, at: Seq<char>, members: Seq<(Seq<char>, Leaf)>) -> core::result::Result<
    Seq<(Seq<char>, bool)>,
    Seq<char>,
> {
    match member_leaf(members, "worksOn"@) {
        None => Ok(Seq::empty()),
        Some(Leaf::Object) => match json_members_at(body, at + "/worksOn"@) {
            Some(flags) => match flags_read(flags) {
                Some(read) => Ok(read),
                None => Err("a `worksOn` flag is not true or false"@),
            },
            None => Err("`worksOn` is not a JSON object"@),
        },
        Some(_) => Err("`worksOn` is not a JSON object"@),
    }
}

/// What the product object at `at` in a page reads as: its id when it is a number
/// or a string, its title, slug and image when they are strings, and its
/// `worksOn` flags; or why it cannot be read.
pub open spec fn product_read(body: Seq<char>, at: Seq<char>) -> core::result::Result<ProductView, Seq<char>> {
    match json_members_at(body, at) {
        None => Err("a product is not a JSON object"@),
        Some(members) => {
            let id = match member_leaf(members, "id"@) {
                Some(Leaf::Number(text)) => Some(text),
                Some(Leaf::Text(text)) => Some(text),
                _ => None,
            };
            match optional_text_leaf(members, "title"@) {
                Err(reason) => Err(reason),
                Ok(title) => match optional_text_leaf(members, "slug"@) {
                    Err(reason) => Err(reason),
                    Ok(slug) => match optional_text_leaf(members, "image"@) {
                        Err(reason) => Err(reason),
                        Ok(image) => match works_on_read(body, at, members) {
                            Err(reason) => Err(reason),
                            Ok(works_on) => Ok(ProductView { id, title, slug, image, works_on }),
                        },
                    },
                },
            }
        },
    }
}

/// Where the `index`th product of a page is.
pub open spec fn product_pointer(index: nat) -> Seq<char> {
    "/products/"@ + decimal(index)
}

/// The first `count` products of a page, or why one of them cannot be read.
pub open spec fn products_read(body: Seq<char>, count: nat) -> core::result::Result<Seq<ProductView>, Seq<char>>
    decreases count,
{
    if count == 0 {
        Ok(Seq::empty())
    } else {
        match products_read(body, (count - 1) as nat) {
            Err(reason) => Err(reason),
            Ok(front) => match product_read(body, product_pointer((count - 1) as nat)) {
                Err(reason) => Err(reason),
                Ok(product) => Ok(front.push(product)),
            },
        }
    }
}

/// What one page of the products endpoint reads as: its products, none when
/// it lists none, and its page count when it gives one; or why it cannot be read.
pub open spec fn page_read(body: Seq<char>) -> core::result::Result<(Seq<ProductView>, Option<u32>), Seq<char>> {
    match json_members_at(body, ""@) {
        None => Err("the page is not a JSON object"@),
        Some(top) => {
            let products = match member_leaf(top, "products"@) {
                None => Ok(Seq::empty()),
                Some(Leaf::List) => match json_items_at(body, "/products"@) {
                    Some(items) => products_read(body, items.len()),
                    None => Err("`products` is not a list"@),
                },
                Some(_) => Err("`products` is not a list"@),
            };
            let total = match member_leaf(top, "totalPages"@) {
                None => Ok(None),
                Some(Leaf::Null) => Ok(None),
                Some(Leaf::Number(text)) => match whole_number(text) {
                    Some(count) => if count <= u32::MAX {
                        Ok(Some(count as u32))
                    } else {
                        Err("`totalPages` is not a page count"@)
                    },
                    None => Err("`totalPages` is not a page count"@),
                },
                Some(_) => Err("`totalPages` is not a page count"@),
            };
            match products {
                Err(reason) => Err(reason),
                Ok(read) => match total {
                    Err(reason) => Err(reason),
                    Ok(count) => Ok((read, count)),
                },
            }
        },
    }
}

/// The `worksOn` flags of the product object at `at`.
fn read_flags(body: &str, at: &str, members: &[(String, Scalar)]) -> (result: core::result::Result<Vec<(String, bool)>, String>)
    ensures
        match (result, works_on_read(body@, at@, member_leaves(members@))) {
            (Ok(flags), Ok(expected)) => Seq::new(flags@.len(), |i: int| (flags@[i].0@, flags@[i].1)) == expected,
            (Err(reason), Err(expected)) => reason@ == expected,
            _ => false,
        },
{
    let mut works_on: Vec<(String, bool)> = Vec::new();
    match member(members, "worksOn") {
        None => {
            proof {
                assert(Seq::new(works_on@.len(), |i: int| (works_on@[i].0@, works_on@[i].1)) =~= Seq::<(Seq<char>, bool)>::empty());
            }
            Ok(works_on)
        },
        Some(Scalar::Object) => {
            let pointer = joined(at, "/worksOn");
            let flags = match members_at(body, pointer.as_str()) {
                Some(flags) => flags,
                None => return Err(owned("`worksOn` is not a JSON object")),
            };
            let ghost leaves = member_leaves(flags@);
            let mut i: usize = 0;
            proof {
                assert(leaves.take(0) =~= Seq::<(Seq<char>, Leaf)>::empty());
            }
            while i < flags.len()
                invariant
                    i <= flags@.len(),
                    leaves == member_leaves(flags@),
                    member_leaf(member_leaves(members@), "worksOn"@) == Some(Leaf::Object),
                    json_members_at(body@, at@ + "/worksOn"@) == Some(leaves),
                    flags_read(leaves.take(i as int)) == Some(
                        Seq::new(works_on@.len(), |k: int| (works_on@[k].0@, works_on@[k].1)),
                    ),
                decreases flags@.len() - i,
            {
                proof {
                    assert(leaves.take(i + 1).drop_last() =~= leaves.take(i as int));
                    assert(leaves.take(i + 1).last() == leaves[i as int]);
                }
                let ghost before = works_on@;
                match &flags[i].1 {
                    Scalar::Bool(flag) => {
                        works_on.push((flags[i].0.clone(), *flag));
                        proof {
                            assert(Seq::new(works_on@.len(), |k: int| (works_on@[k].0@, works_on@[k].1)) =~= Seq::new(
                                before.len(),
                                |k: int| (before[k].0@, before[k].1),
                            ).push((leaves[i as int].0, *flag)));
                        }
                    },
                    _ => {
                        proof {
                            assert(leaves[i as int].1 == flags@[i as int].1@);
                            assert(flags_read(leaves.take(i + 1)) is None);
                            lemma_flags_read_prefix(leaves, i + 1);
                            assert(flags_read(leaves) is None);
                        }
                        return Err(owned("a `worksOn` flag is not true or false"));
                    },
                }
                i = i + 1;
            }
            proof {
                assert(leaves.take(i as int) =~= leaves);
            }
            Ok(works_on)
        },
        Some(_) => Err(owned("`worksOn` is not a JSON object")),
    }
}

/// Flags that cannot be read from a prefix cannot be read at all.
proof fn lemma_flags_read_prefix(flags: Seq<(Seq<char>, Leaf)>, n: int)
    requires
        0 <= n <= flags.len(),
        flags_read(flags.take(n)) is None,
    ensures
        flags_read(flags) is None,
    decreases flags.len() - n,
{
    if n < flags.len() {
        assert(flags.take(n + 1).drop_last() =~= flags.take(n));
        lemma_flags_read_prefix(flags, n + 1);
    } else {
        assert(flags.take(n) =~= flags);
    }
}

/// The product object at `at` in a page, or why it cannot be read.
fn read_product(body: &str, at: &str) -> (result: core::result::Result<Product, String>)
    ensures
        match (result, product_read(body@, at@)) {
            (Ok(product), Ok(expected)) => product_view(product) == expected,
            (Err(reason), Err(expected)) => reason@ == expected,
            _ => false,
        },
{
    let members = match members_at(body, at) {
        Some(members) => members,
        None => return Err(owned("a product is not a JSON object")),
    };
    let id = match member(members.as_slice(), "id") {
        Some(Scalar::Number(text)) => Some(text.clone()),
        Some(Scalar::Text(text)) => Some(text.clone()),
        _ => None,
    };
    let title = match optional_text(members.as_slice(), "title") {
        Ok(title) => title,
        Err(reason) => return Err(reason),
    };
    let slug = match optional_text(members.as_slice(), "slug") {
        Ok(slug) => slug,
        Err(reason) => return Err(reason),
    };
    let image = match optional_text(members.as_slice(), "image") {
        Ok(image) => image,
        Err(reason) => return Err(reason),
    };
    let works_on = match read_flags(body, at, members.as_slice()) {
        Ok(flags) => flags,
        Err(reason) => return Err(reason),
    };
    let product = Product { id, title, slug, image, works_on };
    proof {
        assert(product_view(product).works_on =~= Seq::new(
            product.works_on@.len(),
            |i: int| (product.works_on@[i].0@, product.works_on@[i].1),
        ));
    }
    Ok(product)
}

/// One page of the products endpoint: its products and how many pages there are,
/// or why it cannot be read.
pub fn read_page(body: &str) -> (result: core::result::Result<(Vec<Product>, Option<u32>), String>)
    ensures
        match (result, page_read(body@)) {
            (Ok((products, total)), Ok((expected, expected_total))) => product_views(products@) == expected
                && total == expected_total,
            (Err(reason), Err(expected)) => reason@ == expected,
            _ => false,
        },
{
    let top = match members_at(body, "") {
        Some(top) => top,
        None => return Err(owned("the page is not a JSON object")),
    };
    let mut products: Vec<Product> = Vec::new();
    match member(top.as_slice(), "products") {
        None => {
            proof {
                assert(product_views(products@) =~= Seq::<ProductView>::empty());
            }
        },
        Some(Scalar::List) => {
            let count = match items_at(body, "/products") {
                Some(items) => {
                    proof {
                        assert(item_leaves(items@).len() == items@.len());
                    }
                    items.len()
                },
                None => return Err(owned("`products` is not a list")),
            };
            proof {
                assert(json_items_at(body@, "/products"@) matches Some(items) && items.len() == count);
            }
            let mut i: usize = 0;
            proof {
                assert(product_views(products@) =~= Seq::<ProductView>::empty());
            }
            while i < count
                invariant
                    i <= count,
                    member_leaf(member_leaves(top@), "products"@) == Some(Leaf::List),
                    json_members_at(body@, ""@) == Some(member_leaves(top@)),
                    json_items_at(body@, "/products"@) matches Some(items) && items.len() == count,
                    products_read(body@, i as nat) == Ok::<Seq<ProductView>, Seq<char>>(product_views(products@)),
                decreases count - i,
            {
                let number = decimal_string(i as u64);
                let at = joined("/products/", number.as_str());
                let ghost before = products@;
                match read_product(body, at.as_str()) {
                    Ok(product) => {
                        products.push(product);
                        proof {
                            assert(product_views(products@) =~= product_views(before).push(product_view(product)));
                        }
                    },
                    Err(reason) => {
                        proof {
                            assert(at@ == product_pointer(i as nat));
                            assert(products_read(body@, (i + 1) as nat) == Err::<Seq<ProductView>, Seq<char>>(reason@));
                            lemma_products_read_prefix(body@, (i + 1) as nat, count as nat);
                            assert(products_read(body@, count as nat) == Err::<Seq<ProductView>, Seq<char>>(reason@));
                        }
                        return Err(reason);
                    },
                }
                i = i + 1;
            }
        },
        Some(_) => return Err(owned("`products` is not a list")),
    }
    let total_pages = match member(top.as_slice(), "totalPages") {
        None => None,
        Some(Scalar::Null) => None,
        Some(Scalar::Number(text)) => match whole_number_of(text.as_str()) {
            Some(count) => if count <= 0xFFFF_FFFFu64 {
                Some(count as u32)
            } else {
                return Err(owned("`totalPages` is not a page count"));
            },
            None => return Err(owned("`totalPages` is not a page count")),
        },
        Some(_) => return Err(owned("`totalPages` is not a page count")),
    };
    Ok((products, total_pages))
}

/// A product that cannot be read stops every longer run of products at its error.
proof fn lemma_products_read_prefix(body: Seq<char>, n: nat, count: nat)
    requires
        n <= count,
        products_read(body, n) is Err,
    ensures
        products_read(body, count) == products_read(body, n),
    decreases count - n,
{
    if n < count {
        lemma_products_read_prefix(body, n, (count - 1) as nat);
    }
}

/// The bytes a game's title sorts by: its lowercase spelling.
pub open spec fn title_key(game: Game) -> Seq<u8> {
    encode_utf8(lowercase(game.title@))
}

/// The bytes a game's id sorts by.
pub open spec fn id_key(game: Game) -> Seq<u8> {
    encode_utf8(game.id@)
}

/// Whether `a` comes before `b` in the library: by lowercase title, then by id.
pub open spec fn game_before(a: Game, b: Game) -> bool {
    lex_lt(title_key(a), title_key(b)) || (title_key(a) == title_key(b) && lex_lt(id_key(a), id_key(b)))
}

/// Games in library order.
pub open spec fn sorted_games(games: Seq<Game>) -> bool {
    forall|i: int, j: int| 0 <= i < j < games.len() ==> game_before(#[trigger] games[i], #[trigger] games[j])
}

/// Games with no id twice.
pub open spec fn distinct_ids(games: Seq<Game>) -> bool {
    forall|i: int, j: int|
        0 <= i < games.len() && 0 <= j < games.len() && i != j ==> (#[trigger] games[i]).id@ != (#[trigger] games[j]).id@
}

/// Library order is transitive, and any two games with different ids are in it
/// one way or the other.
proof fn lemma_game_order(a: Game, b: Game, c: Game)
    ensures
        game_before(a, b) && game_before(b, c) ==> game_before(a, c),
        !game_before(a, b) && a.id@ != b.id@ ==> game_before(b, a),
        !game_before(a, a),
{
    lemma_lex_trichotomy(title_key(a), title_key(b));
    lemma_lex_trichotomy(id_key(a), id_key(b));
    lemma_lex_trichotomy(title_key(a), title_key(a));
    lemma_lex_trichotomy(id_key(a), id_key(a));
    if game_before(a, b) && game_before(b, c) {
        if lex_lt(title_key(a), title_key(b)) && lex_lt(title_key(b), title_key(c)) {
            lemma_lex_transitive(title_key(a), title_key(b), title_key(c));
        }
        if title_key(a) == title_key(b) && title_key(b) == title_key(c) {
            lemma_lex_transitive(id_key(a), id_key(b), id_key(c));
        }
    }
    encode_utf8_decode_utf8(a.id@);
    encode_utf8_decode_utf8(b.id@);
}

/// Whether `a` comes before `b` in the library.
fn comes_before(a: &Game, b: &Game) -> (before: bool)
    ensures
        before == game_before(*a, *b),
{
    let a_title = to_lowercase(a.title.as_str());
    let b_title = to_lowercase(b.title.as_str());
    match compare_bytes(a_title.as_str().as_bytes(), b_title.as_str().as_bytes()) {
        Cmp::Less => true,
        Cmp::Greater => {
            proof {
                lemma_lex_trichotomy(title_key(*a), title_key(*b));
            }
            false
        },
        Cmp::Equal => match compare_bytes(a.id.as_str().as_bytes(), b.id.as_str().as_bytes()) {
            Cmp::Less => true,
            _ => {
                proof {
                    lemma_lex_trichotomy(id_key(*a), id_key(*b));
                }
                false
            },
        },
    }
}

/// Sort games into library order, keeping every one.
fn sort_games(games: Vec<Game>) -> (sorted: Vec<Game>)
    requires
        distinct_ids(games@),
    ensures
        sorted_games(sorted@),
        distinct_ids(sorted@),
        sorted@.to_multiset() == games@.to_multiset(),
{
    broadcast use vstd::seq_lib::group_to_multiset_ensures;

    let ghost given = games@;
    let mut rest = games;
    let mut sorted: Vec<Game> = Vec::new();
    let ghost mut i: int = 0;
    proof {
        assert(given.take(0) =~= Seq::<Game>::empty());
        assert(given.skip(0) =~= given);
    }
    while rest.len() > 0
        invariant
            0 <= i <= given.len(),
            rest@ == given.skip(i),
            distinct_ids(given),
            sorted_games(sorted@),
            distinct_ids(sorted@),
            sorted@.to_multiset() == given.take(i).to_multiset(),
        decreases rest@.len(),
    {
        let game = rest.remove(0);
        proof {
            assert(game == given[i]);
            assert(given.skip(i).remove(0) =~= given.skip(i + 1));
        }
        let mut p: usize = 0;
        while p < sorted.len() && comes_before(&sorted[p], &game)
            invariant
                p <= sorted@.len(),
                forall|k: int| 0 <= k < p ==> game_before(#[trigger] sorted@[k], game),
            decreases sorted@.len() - p,
        {
            p = p + 1;
        }
        let ghost before = sorted@;
        proof {
            // Every game already placed came earlier in the input, so its id differs.
            assert forall|k: int| 0 <= k < before.len() implies (#[trigger] before[k]).id@ != game.id@ by {
                before.to_multiset_ensures();
                given.take(i).to_multiset_ensures();
                assert(before.contains(before[k]));
                assert(before.to_multiset().count(before[k]) > 0);
                assert(given.take(i).to_multiset().count(before[k]) > 0);
                assert(given.take(i).contains(before[k]));
                let j = choose|j: int| 0 <= j < given.take(i).len() && given.take(i)[j] == before[k];
                assert(given[j] == before[k]);
            }
            if p < before.len() {
                lemma_game_order(before[p as int], game, game);
                assert forall|k: int| p <= k < before.len() implies game_before(game, #[trigger] before[k]) by {
                    if k > p {
                        lemma_game_order(game, before[p as int], before[k]);
                    }
                }
            }
        }
        sorted.insert(p, game);
        proof {
            assert forall|a: int, b: int| 0 <= a < b < sorted@.len() implies game_before(
                #[trigger] sorted@[a],
                #[trigger] sorted@[b],
            ) by {
                if a < p && b < p {
                    assert(sorted@[a] == before[a] && sorted@[b] == before[b]);
                } else if a < p && b == p {
                    assert(sorted@[a] == before[a]);
                } else if a < p {
                    assert(sorted@[a] == before[a] && sorted@[b] == before[b - 1]);
                    lemma_game_order(before[a], game, before[b - 1]);
                } else if a == p {
                    assert(sorted@[b] == before[b - 1]);
                } else {
                    assert(sorted@[a] == before[a - 1] && sorted@[b] == before[b - 1]);
                }
            }
            assert forall|a: int, b: int|
                0 <= a < sorted@.len() && 0 <= b < sorted@.len() && a != b implies (#[trigger] sorted@[a]).id@ != (
                #[trigger] sorted@[b]).id@ by {
                let ra = if a < p { a } else { a - 1 };
                let rb = if b < p { b } else { b - 1 };
                if a != p && b != p {
                    assert(sorted@[a] == before[ra] && sorted@[b] == before[rb]);
                } else if a == p {
                    assert(sorted@[b] == before[rb]);
                } else {
                    assert(sorted@[a] == before[ra]);
                }
            }
            assert(given.take(i + 1) =~= given.take(i).push(game));
            vstd::seq_lib::to_multiset_insert(before, p as int, game);
            vstd::seq_lib::to_multiset_build(given.take(i), game);
            assert(sorted@ == before.insert(p as int, game));
            i = i + 1;
        }
    }
    proof {
        assert(given.take(i) =~= given);
    }
    sorted
}

/// The games after `game` joins them: it replaces the one with its id, or is added
/// at the end; a later page wins.
pub open spec fn merged(games: Seq<Game>, game: Game) -> Seq<Game> {
    match game_position(games, game.id@) {
        Some(i) => games.update(i, game),
        None => games.push(game),
    }
}

/// Add `game`, replacing the one with its id.
fn merge(games: &mut Vec<Game>, game: Game)
    requires
        distinct_ids(old(games)@),
    ensures
        final(games)@ == merged(old(games)@, game),
        distinct_ids(final(games)@),
{
    proof {
        lemma_game_position(games@, game.id@);
    }
    let mut i: usize = 0;
    while i < games.len()
        invariant
            i <= games@.len(),
            games@ == old(games)@,
            distinct_ids(games@),
            forall|j: int| 0 <= j < i ==> (#[trigger] games@[j]).id@ != game.id@,
        decreases games@.len() - i,
    {
        if same_id(&games[i].id, &game.id) {
            proof {
                lemma_game_position(games@, game.id@);
            }
            let ghost before = games@;
            games.set(i, game);
            proof {
                assert forall|a: int, b: int|
                    0 <= a < games@.len() && 0 <= b < games@.len() && a != b implies (#[trigger] games@[a]).id@ != (
                    #[trigger] games@[b]).id@ by {
                    if a != i && b != i {
                        assert(games@[a] == before[a] && games@[b] == before[b]);
                    } else if a == i {
                        assert(games@[b] == before[b]);
                    } else {
                        assert(games@[a] == before[a]);
                    }
                }
            }
            return;
        }
        i = i + 1;
    }
    proof {
        lemma_game_position(games@, game.id@);
    }
    let ghost before = games@;
    games.push(game);
    proof {
        assert forall|a: int, b: int|
            0 <= a < games@.len() && 0 <= b < games@.len() && a != b implies (#[trigger] games@[a]).id@ != (
            #[trigger] games@[b]).id@ by {
            if a < before.len() && b < before.len() {
                assert(games@[a] == before[a] && games@[b] == before[b]);
            } else if a < before.len() {
                assert(games@[a] == before[a]);
            } else {
                assert(games@[b] == before[b]);
            }
        }
    }
}

/// Where the last usable product with `id` is, or -1 when there is none.
pub open spec fn last_usable(products: Seq<Product>, id: Seq<char>) -> int
    decreases products.len(),
{
    if products.len() == 0 {
        -1
    } else if usable_product(products.last()) && products.last().id.unwrap()@ == id {
        products.len() - 1
    } else {
        last_usable(products.drop_last(), id)
    }
}

/// Whether `games` is the library `products` make: one game for each id a usable
/// product has, converted from the last usable product with that id, and nothing
/// else.
pub open spec fn library_of(products: Seq<Product>, games: Seq<Game>) -> bool {
    &&& distinct_ids(games)
    &&& forall|i: int|
        0 <= i < games.len() ==> 0 <= last_usable(products, (#[trigger] games[i]).id@) && converts(
            products[last_usable(products, games[i].id@)],
            games[i],
        )
    &&& forall|k: int|
        0 <= k < products.len() && usable_product(#[trigger] products[k]) ==> game_position(
            games,
            products[k].id.unwrap()@,
        ) is Some
}

/// The last usable product with an id is one, and no usable product after it has
/// that id.
proof fn lemma_last_usable(products: Seq<Product>, id: Seq<char>)
    ensures
        -1 <= last_usable(products, id) < products.len(),
        0 <= last_usable(products, id) ==> usable_product(products[last_usable(products, id)])
            && products[last_usable(products, id)].id.unwrap()@ == id,
        forall|k: int|
            last_usable(products, id) < k < products.len() && usable_product(#[trigger] products[k])
                ==> products[k].id.unwrap()@ != id,
    decreases products.len(),
{
    if products.len() > 0 {
        let front = products.drop_last();
        lemma_last_usable(front, id);
        assert forall|k: int| 0 <= k < front.len() implies front[k] == products[k] by {}
    }
}

/// One more product changes the last usable product of its own id only.
proof fn lemma_last_usable_push(products: Seq<Product>, product: Product, id: Seq<char>)
    ensures
        last_usable(products.push(product), id) == if usable_product(product) && product.id.unwrap()@ == id {
            products.len() as int
        } else {
            last_usable(products, id)
        },
{
    assert(products.push(product).drop_last() =~= products);
}

/// Joining a game into a library of the products so far gives the library of
/// those products and the one it was converted from; a product that is not
/// usable changes nothing.
proof fn lemma_library_step(products: Seq<Product>, games: Seq<Game>, product: Product, game: Option<Game>)
    requires
        library_of(products, games),
        game is Some <==> usable_product(product),
        game matches Some(g) ==> converts(product, g),
    ensures
        library_of(
            products.push(product),
            match game {
                Some(g) => merged(games, g),
                None => games,
            },
        ),
{
    let all = products.push(product);
    assert forall|k: int| 0 <= k < products.len() implies all[k] == products[k] by {}
    assert(all[products.len() as int] == product);
    lemma_game_position(games, product.id.unwrap()@);
    match game {
        None => {
            assert forall|i: int| 0 <= i < games.len() implies 0 <= last_usable(all, (#[trigger] games[i]).id@)
                && converts(all[last_usable(all, games[i].id@)], games[i]) by {
                lemma_last_usable_push(products, product, games[i].id@);
                lemma_last_usable(products, games[i].id@);
                let at = last_usable(products, games[i].id@);
                assert(all[at] == products[at]);
            }
        },
        Some(g) => {
            let after = merged(games, g);
            lemma_game_position(games, g.id@);
            lemma_last_usable_push(products, product, g.id@);
            assert(distinct_ids(after)) by {
                assert forall|a: int, b: int|
                    0 <= a < after.len() && 0 <= b < after.len() && a != b implies (#[trigger] after[a]).id@ != (
                    #[trigger] after[b]).id@ by {
                    match game_position(games, g.id@) {
                        Some(p) => {
                            if a != p && b != p {
                                assert(after[a] == games[a] && after[b] == games[b]);
                            } else if a == p {
                                assert(after[b] == games[b]);
                            } else {
                                assert(after[a] == games[a]);
                            }
                        },
                        None => {
                            if a < games.len() && b < games.len() {
                                assert(after[a] == games[a] && after[b] == games[b]);
                            } else if a < games.len() {
                                assert(after[a] == games[a]);
                            } else {
                                assert(after[b] == games[b]);
                            }
                        },
                    }
                }
            }
            assert forall|i: int| 0 <= i < after.len() implies 0 <= last_usable(all, (#[trigger] after[i]).id@)
                && converts(all[last_usable(all, after[i].id@)], after[i]) by {
                lemma_last_usable_push(products, product, after[i].id@);
                let replaced = match game_position(games, g.id@) {
                    Some(p) => i == p,
                    None => i == games.len(),
                };
                if replaced {
                    assert(after[i] == g);
                    assert(last_usable(all, g.id@) == products.len());
                } else {
                    assert(after[i] == games[i]);
                    assert(games[i].id@ != g.id@) by {
                        if let Some(p) = game_position(games, g.id@) {
                            assert(games[p].id@ == g.id@);
                        }
                    }
                    lemma_last_usable(products, games[i].id@);
                    let at = last_usable(products, games[i].id@);
                    assert(all[at] == products[at]);
                }
            }
            assert forall|k: int| 0 <= k < all.len() && usable_product(#[trigger] all[k]) implies game_position(
                after,
                all[k].id.unwrap()@,
            ) is Some by {
                let id = all[k].id.unwrap()@;
                lemma_game_position(after, id);
                if k < products.len() {
                    lemma_game_position(games, id);
                    let j = game_position(games, id).unwrap();
                    let holder = match game_position(games, g.id@) {
                        Some(p) => if j == p { g } else { games[j] },
                        None => games[j],
                    };
                    assert(after[j] == holder);
                    assert(after[j].id@ == id);
                } else {
                    match game_position(games, g.id@) {
                        Some(p) => assert(after[p] == g),
                        None => assert(after[games.len() as int] == g),
                    }
                }
            }
        },
    }
}

/// The same games in another order are the same library.
proof fn lemma_library_reordered(products: Seq<Product>, games: Seq<Game>, reordered: Seq<Game>)
    requires
        library_of(products, games),
        distinct_ids(reordered),
        reordered.to_multiset() == games.to_multiset(),
    ensures
        library_of(products, reordered),
{
    broadcast use vstd::seq_lib::group_to_multiset_ensures;

    assert forall|i: int| 0 <= i < reordered.len() implies 0 <= last_usable(products, (#[trigger] reordered[i]).id@)
        && converts(products[last_usable(products, reordered[i].id@)], reordered[i]) by {
        assert(reordered.contains(reordered[i]));
        assert(games.to_multiset().count(reordered[i]) > 0);
        assert(games.contains(reordered[i]));
        let j = choose|j: int| 0 <= j < games.len() && games[j] == reordered[i];
        assert(games[j] == reordered[i]);
    }
    assert forall|k: int| 0 <= k < products.len() && usable_product(#[trigger] products[k]) implies game_position(
        reordered,
        products[k].id.unwrap()@,
    ) is Some by {
        let id = products[k].id.unwrap()@;
        lemma_game_position(games, id);
        lemma_game_position(reordered, id);
        let j = game_position(games, id).unwrap();
        assert(games.contains(games[j]));
        assert(reordered.to_multiset().count(games[j]) > 0);
        assert(reordered.contains(games[j]));
        let m = choose|m: int| 0 <= m < reordered.len() && reordered[m] == games[j];
        assert(reordered[m].id@ == id);
    }
}

/// The games `products` make, in the order their ids first appear.
fn library_games(products: Vec<Product>) -> (games: Vec<Game>)
    ensures
        library_of(products@, games@),
{
    let ghost all = products@;
    let mut rest = products;
    let mut games: Vec<Game> = Vec::new();
    let ghost mut n: int = 0;
    proof {
        assert(all.take(0) =~= Seq::<Product>::empty());
        assert(all.skip(0) =~= all);
    }
    while rest.len() > 0
        invariant
            0 <= n <= all.len(),
            rest@ == all.skip(n),
            library_of(all.take(n), games@),
        decreases rest@.len(),
    {
        let product = rest.remove(0);
        let ghost taken = product;
        proof {
            assert(taken == all[n]);
            assert(all.skip(n).remove(0) =~= all.skip(n + 1));
            assert(all.take(n + 1) =~= all.take(n).push(taken));
        }
        let game = product.into_game();
        proof {
            lemma_library_step(all.take(n), games@, taken, game);
        }
        match game {
            Some(game) => merge(&mut games, game),
            None => {},
        }
        proof {
            n = n + 1;
        }
    }
    proof {
        assert(all.take(n) =~= all);
    }
    games
}

/// The catalog `products`, every product of every page in page order, make at
/// `now`: one game for each id a usable product has, converted from the last
/// usable product with that id, so a later page wins; in library order.
pub fn catalog_from(products: Vec<Product>, now: Timestamp) -> (catalog: Catalog)
    ensures
        catalog.fetched_at == now,
        sorted_games(catalog.games@),
        library_of(products@, catalog.games@),
{
    let ghost all = products@;
    let games = library_games(products);
    let sorted = sort_games(games);
    proof {
        lemma_library_reordered(all, games@, sorted@);
    }
    Catalog { fetched_at: now, games: sorted }
}

/// The message for a page GOG refused: its status and the first line of its body.
pub open spec fn refusal_message(status: u16, body: Seq<char>) -> Seq<char> {
    "GOG refused the library request with status "@ + decimal(status as nat) + " ("@ + first_line(body)
        + ")"@
}

/// The message for a page that cannot be read as a library page.
pub open spec fn unreadable_page(reason: Seq<char>) -> Seq<char> {
    "the library page could not be read ("@ + reason + "); GOG may have changed the shape of this response"@
}

/// How many pages a page says there are: its `totalPages`, at least one.
pub open spec fn page_count(total: Option<u32>) -> u32 {
    match total {
        Some(count) => if count < 1 {
            1
        } else {
            count
        },
        None => 1,
    }
}

/// What the answer to the request for page `page` gives: a refusal when its status
/// is not 2xx, an error when its body is not a library page, and otherwise the
/// page's products and whether another page follows.
pub open spec fn page_outcome(response: Response, page: u32) -> core::result::Result<(Seq<ProductView>, bool), Seq<char>> {
    if !(200 <= response.status < 300) {
        Err(refusal_message(response.status, response.body@))
    } else {
        match page_read(response.body@) {
            Err(reason) => Err(unreadable_page(reason)),
            Ok((products, total)) => Ok((products, page < page_count(total))),
        }
    }
}

/// The products of answers to pages one, two and so on, when every one of them is
/// a library page after which another follows.
pub open spec fn continuing(responses: Seq<Response>) -> Option<Seq<ProductView>>
    decreases responses.len(),
{
    if responses.len() == 0 {
        Some(Seq::empty())
    } else {
        match continuing(responses.drop_last()) {
            None => None,
            Some(front) => match page_outcome(responses.last(), responses.len() as u32) {
                Ok((products, true)) => Some(front + products),
                _ => None,
            },
        }
    }
}

/// The products of a whole library run: answers to pages one up to the last page
/// they announce, each a library page.
pub open spec fn complete_run(responses: Seq<Response>) -> Option<Seq<ProductView>> {
    if responses.len() == 0 {
        None
    } else {
        match continuing(responses.drop_last()) {
            None => None,
            Some(front) => match page_outcome(responses.last(), responses.len() as u32) {
                Ok((products, false)) => Some(front + products),
                _ => None,
            },
        }
    }
}

/// Read the answer to the request for page `page`: its products and whether
/// another page follows, or why the library cannot be read.
pub fn read_response(response: &Response, page: u32) -> (result: Result<(Vec<Product>, bool)>)
    ensures
        match (result, page_outcome(*response, page)) {
            (Ok((products, more)), Ok((expected, expected_more))) => product_views(products@) == expected
                && more == expected_more,
            (Err(Error::Catalog(message)), Err(expected)) => message@ == expected,
            _ => false,
        },
{
    if !response.is_success() {
        let status = decimal_string(response.status as u64);
        let line = first_line_of(response.body.as_str());
        let message = joined("GOG refused the library request with status ", status.as_str());
        let message = joined(message.as_str(), " (");
        let message = joined(message.as_str(), line.as_str());
        return Err(Error::Catalog(joined(message.as_str(), ")")));
    }
    let (products, total_pages) = match read_page(response.body.as_str()) {
        Ok(page_read) => page_read,
        Err(reason) => {
            let message = joined("the library page could not be read (", reason.as_str());
            return Err(
                Error::Catalog(joined(message.as_str(), "); GOG may have changed the shape of this response")),
            );
        },
    };
    let total = match total_pages {
        Some(total) => if total < 1 {
            1
        } else {
            total
        },
        None => 1,
    };
    Ok((products, page < total))
}

/// Whether `http` gave `responses` as its answers to the requests for pages one,
/// two and so on, each sent with `bearer` as its bearer token.
pub open spec fn pages_answered<H: HttpClient>(http: H, bearer: Seq<char>, responses: Seq<Response>) -> bool {
    forall|i: int|
        #![trigger responses[i]]
        0 <= i < responses.len() ==> http.answered(page_address((i + 1) as u32), Some(bearer), Ok(responses[i]))
}

/// Whether `error` is what the answer `answer` to the request for page `page`
/// ends a fetch with: a failed request's error as it came, or the reason
/// [`page_outcome`] gives for a response that is no library page.
pub open spec fn page_failure(answer: Result<Response>, page: u32, error: Error) -> bool {
    match answer {
        Err(failure) => error == failure,
        Ok(response) => page_outcome(response, page) matches Err(reason) && error matches Error::Catalog(message)
            && message@ == reason,
    }
}

/// Whether a fetch that had `responses` to its first pages, each one a library
/// page after which another follows, ends with `error` at the next page: `http`
/// answered the request for it, sent with `bearer`, in a way that
/// [`page_failure`] makes `error` of.
pub open spec fn failed_after<H: HttpClient>(http: H, bearer: Seq<char>, responses: Seq<Response>, error: Error) -> bool {
    let page = (responses.len() + 1) as u32;
    &&& pages_answered(http, bearer, responses)
    &&& continuing(responses) is Some
    &&& exists|answer: Result<Response>|
        #[trigger] page_failure(answer, page, error) && http.answered(page_address(page), Some(bearer), answer)
}

/// Fetch the whole owned library, following GOG's pagination: every page from
/// [`page_url`] of one up to the last the pages announce, each asked for with
/// `access_token` as the bearer and read by [`read_response`]. A game repeated
/// across pages is listed once, as the later page has it, and the result is in
/// library order, so the grid order does not depend on the order GOG paginates
/// in.
pub fn fetch<H: HttpClient>(http: &H, access_token: &str, now: Timestamp) -> (result: Result<Catalog>)
    ensures
        result matches Ok(catalog) ==> catalog.fetched_at == now && sorted_games(catalog.games@) && (exists|
            responses: Seq<Response>,
            products: Seq<Product>,
        |
            #![trigger complete_run(responses), library_of(products, catalog.games@)]
            pages_answered(*http, access_token@, responses) && complete_run(responses) == Some(
                product_views(products),
            ) && library_of(products, catalog.games@)),
        result matches Err(error) ==> exists|responses: Seq<Response>|
            #[trigger] failed_after(*http, access_token@, responses, error),
{
    let mut all: Vec<Product> = Vec::new();
    let mut page: u32 = 1;
    let ghost mut seen: Seq<Response> = Seq::empty();
    let ghost mut last: Response;
    proof {
        assert(product_views(all@) =~= Seq::<ProductView>::empty());
    }
    loop
        invariant_except_break
            page == seen.len() + 1,
            continuing(seen) == Some(product_views(all@)),
            pages_answered(*http, access_token@, seen),
        invariant
            1 <= page,
        ensures
            complete_run(seen.push(last)) == Some(product_views(all@)),
            pages_answered(*http, access_token@, seen.push(last)),
        decreases u32::MAX - page,
    {
        let url = page_url(page);
        let answer = http.get_authorized(url.as_str(), Some(access_token));
        let response = match answer {
            Ok(response) => response,
            Err(error) => {
                proof {
                    assert(page_failure(answer, page, error));
                    assert(page == (seen.len() + 1) as u32);
                    assert(http.answered(page_address(page), Some(access_token@), answer));
                    assert(failed_after(*http, access_token@, seen, error));
                }
                return Err(error);
            },
        };
        let (products, more) = match read_response(&response, page) {
            Ok(read) => read,
            Err(error) => {
                proof {
                    assert(page_failure(answer, page, error));
                    assert(failed_after(*http, access_token@, seen, error));
                }
                return Err(error);
            },
        };
        let ghost before = all@;
        let mut products = products;
        let ghost added = products@;
        all.append(&mut products);
        proof {
            assert(product_views(all@) =~= product_views(before) + product_views(added));
            assert(seen.push(response).drop_last() =~= seen);
        }
        if !more {
            proof {
                last = response;
                assert(seen.push(last).len() as u32 == page);
            }
            break;
        }
        proof {
            seen = seen.push(response);
        }
        page = page + 1;
    }
    let ghost products = all@;
    let catalog = catalog_from(all, now);
    proof {
        let run = seen.push(last);
        assert(library_of(products, catalog.games@));
        assert(complete_run(run) == Some(product_views(products)));
    }
    Ok(catalog)
}

/// Law: library order compares titles as their lowercased text, byte by byte,
/// and falls back to the ids only between titles that lowercase alike; two games
/// whose titles lowercase alike and whose ids agree sit in the same place
/// against any other game, whatever the case of their titles.
pub proof fn lemma_library_order_ignores_case(a: Game, b: Game, c: Game)
    ensures
        lex_lt(encode_utf8(lowercase(a.title@)), encode_utf8(lowercase(b.title@))) ==> game_before(a, b),
        lex_lt(encode_utf8(lowercase(b.title@)), encode_utf8(lowercase(a.title@))) ==> !game_before(a, b),
        encode_utf8(lowercase(a.title@)) == encode_utf8(lowercase(b.title@)) ==> (game_before(a, b)
            == lex_lt(encode_utf8(a.id@), encode_utf8(b.id@))),
        lowercase(a.title@) == lowercase(c.title@) && a.id@ == c.id@ ==> (game_before(a, b) == game_before(
            c,
            b,
        ) && game_before(b, a) == game_before(b, c)),
{
    lemma_lex_trichotomy(encode_utf8(lowercase(a.title@)), encode_utf8(lowercase(b.title@)));
}

/// The games that match `needle` are those of `games` whose lowercased title
/// holds it.
proof fn lemma_titles_matching(games: Seq<Game>, needle: Seq<char>, game: Game)
    ensures
        titles_matching(games, needle).contains(game) <==> games.contains(game) && contains_text(
            lowercase(game.title@),
            needle,
        ),
    decreases games.len(),
{
    if games.len() > 0 {
        let front = games.drop_last();
        lemma_titles_matching(front, needle, game);
        let earlier = titles_matching(front, needle);
        if games.contains(game) && game != games.last() {
            let k = choose|k: int| 0 <= k < games.len() && games[k] == game;
            assert(front[k] == game);
        }
        if front.contains(game) {
            let k = choose|k: int| 0 <= k < front.len() && front[k] == game;
            assert(games[k] == game);
        }
        if contains_text(lowercase(games.last().title@), needle) {
            let pushed = earlier.push(games.last());
            assert(pushed[earlier.len() as int] == games.last());
            if pushed.contains(game) && game != games.last() {
                let k = choose|k: int| 0 <= k < pushed.len() && pushed[k] == game;
                assert(earlier[k] == game);
            }
            if earlier.contains(game) {
                let k = choose|k: int| 0 <= k < earlier.len() && earlier[k] == game;
                assert(pushed[k] == game);
            }
        }
        assert(games[games.len() - 1] == games.last());
    }
}

/// Law: searching with a needle that is blank once trimmed finds every game, in
/// library order; otherwise a game is found exactly when it is in the library
/// and its lowercased title holds the lowercased, trimmed needle somewhere.
pub proof fn lemma_search_finds_matches(games: Seq<Game>, needle: Seq<char>, game: Game)
    ensures
        lowercase(trimmed(needle)).len() == 0 ==> search_results(games, needle) == games,
        lowercase(trimmed(needle)).len() > 0 ==> (search_results(games, needle).contains(game) <==> (
        games.contains(game) && exists|i: int|
            0 <= i && i + lowercase(trimmed(needle)).len() <= lowercase(game.title@).len()
                && #[trigger] lowercase(game.title@).subrange(i, i + lowercase(trimmed(needle)).len())
                == lowercase(trimmed(needle)))),
{
    lemma_titles_matching(games, lowercase(trimmed(needle)), game);
}

/// Whether the answer to page `page` is a library page that announces a page
/// after it.
pub open spec fn announces_more(response: Response, page: int) -> bool {
    200 <= response.status < 300 && match page_read(response.body@) {
        Ok((_, Some(total))) => page < total,
        _ => false,
    }
}

/// Whether the answer to page `page` is a library page that announces no page
/// after it: no count, or a count no greater than its own number.
pub open spec fn announces_last(response: Response, page: int) -> bool {
    200 <= response.status < 300 && match page_read(response.body@) {
        Ok((_, Some(total))) => total <= page,
        Ok((_, None)) => true,
        Err(_) => false,
    }
}

/// Answers that continue are library pages each announcing one after it.
proof fn lemma_continuing_pages(responses: Seq<Response>)
    requires
        continuing(responses) is Some,
        responses.len() < u32::MAX,
    ensures
        forall|i: int| 0 <= i < responses.len() ==> announces_more(#[trigger] responses[i], i + 1),
    decreases responses.len(),
{
    if responses.len() > 0 {
        let front = responses.drop_last();
        lemma_continuing_pages(front);
        assert forall|i: int| 0 <= i < responses.len() implies announces_more(#[trigger] responses[i], i + 1) by {
            if i < front.len() {
                assert(front[i] == responses[i]);
            } else {
                assert(responses[i] == responses.last());
            }
        }
    }
}

/// Law: a whole library run is the answers to pages one, two and so on up to the
/// first page that announces none after it: every page before it announced a
/// later one, and every page was a library page GOG accepted.
pub proof fn lemma_run_follows_announced_pages(responses: Seq<Response>)
    requires
        complete_run(responses) is Some,
        responses.len() < u32::MAX,
    ensures
        responses.len() >= 1,
        forall|i: int| 0 <= i < responses.len() - 1 ==> announces_more(#[trigger] responses[i], i + 1),
        announces_last(responses.last(), responses.len() as int),
{
    let front = responses.drop_last();
    lemma_continuing_pages(front);
    assert forall|i: int| 0 <= i < responses.len() - 1 implies announces_more(#[trigger] responses[i], i + 1) by {
        assert(front[i] == responses[i]);
    }
}

} // verus!
