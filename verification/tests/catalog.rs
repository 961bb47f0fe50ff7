use std::cell::RefCell;

use gamestore::catalog::{fetch, page_url, read_page, Catalog, Game, Os, ProductId};
use gamestore::http::{HttpClient, Response};
use gamestore::time::Timestamp;
use gamestore::{Error, Paths, Result};

/// Serves pages in order, and records what it was asked for.
struct FakePages {
    pages: RefCell<Vec<Response>>,
    seen: RefCell<Vec<(String, Option<String>)>>,
}

impl FakePages {
    fn new(pages: &[(u16, &str)]) -> Self {
        Self {
            pages: RefCell::new(
                pages
                    .iter()
                    .rev()
                    .map(|(status, body)| Response {
                        status: *status,
                        body: (*body).to_string(),
                    })
                    .collect(),
            ),
            seen: RefCell::new(Vec::new()),
        }
    }
}

impl HttpClient for FakePages {
    fn get(&self, url: &str) -> Result<Response> {
        self.get_authorized(url, None)
    }

    fn get_authorized(&self, url: &str, bearer: Option<&str>) -> Result<Response> {
        self.seen
            .borrow_mut()
            .push((url.to_string(), bearer.map(str::to_string)));

        self.pages.borrow_mut().pop().ok_or_else(|| Error::Http {
            url: url.to_string(),
            reason: "the test ran out of pages".to_string(),
        })
    }
}

const T0: Timestamp = Timestamp { secs: 0, nanos: 0 };

fn page(products: &str, total: u32) -> String {
    format!(r#"{{"products":[{products}],"totalPages":{total}}}"#)
}

const BASTION: &str = r#"{"id":1207658930,"title":"Bastion","slug":"bastion",
    "image":"//images.gog.com/abc","worksOn":{"Windows":true,"Mac":true,"Linux":false}}"#;
const GOTHIC: &str = r#"{"id":1207658697,"title":"Gothic II","slug":"gothic_ii",
    "worksOn":{"Windows":true,"Mac":false,"Linux":false}}"#;

#[test]
fn a_single_page_library_is_read() {
    let http = FakePages::new(&[(200, &page(BASTION, 1))]);

    let catalog = fetch(&http, "a-token", T0).unwrap();

    assert_eq!(catalog.len(), 1);
    let game = &catalog.games[0];
    assert_eq!(game.id, ProductId::new("1207658930"));
    assert_eq!(game.title, "Bastion");
    assert_eq!(game.slug, "bastion");
    assert_eq!(game.image.as_deref(), Some("//images.gog.com/abc"));
    assert_eq!(game.runs_on, vec![Os::Windows, Os::Mac]);
    assert!(game.has_windows_build());
    assert_eq!(catalog.fetched_at, T0);
}

#[test]
fn the_access_token_is_sent_as_a_bearer_on_every_page() {
    let http = FakePages::new(&[(200, &page(BASTION, 2)), (200, &page(GOTHIC, 2))]);

    fetch(&http, "a-token", T0).unwrap();

    let seen = http.seen.borrow();
    assert_eq!(seen.len(), 2);
    for (url, bearer) in seen.iter() {
        assert_eq!(
            bearer.as_deref(),
            Some("a-token"),
            "an unauthenticated page request would look like an empty library"
        );
        assert!(url.contains("mediaType=1"), "{url}");
    }
    assert!(seen[0].0.contains("page=1"));
    assert!(seen[1].0.contains("page=2"));
}

#[test]
fn every_page_is_followed_and_the_result_is_sorted_by_title() {
    let http = FakePages::new(&[(200, &page(GOTHIC, 2)), (200, &page(BASTION, 2))]);

    let catalog = fetch(&http, "a-token", T0).unwrap();

    assert_eq!(
        catalog.games.iter().map(|g| g.title.as_str()).collect::<Vec<_>>(),
        vec!["Bastion", "Gothic II"],
        "the grid order must not depend on the order GOG paginates in"
    );
}

#[test]
fn a_game_repeated_across_pages_is_only_listed_once() {
    let http = FakePages::new(&[(200, &page(BASTION, 2)), (200, &page(BASTION, 2))]);

    assert_eq!(fetch(&http, "a-token", T0).unwrap().len(), 1);
}

#[test]
fn a_product_that_cannot_be_read_is_skipped_not_fatal() {
    let broken = r#"{"title":"No Id At All"}"#;
    let http = FakePages::new(&[(200, &page(&format!("{broken},{BASTION}"), 1))]);

    let catalog = fetch(&http, "a-token", T0).unwrap();

    assert_eq!(catalog.len(), 1);
    assert_eq!(catalog.games[0].title, "Bastion");
}

#[test]
fn unknown_fields_do_not_break_the_parse() {
    let with_extra = r#"{"id":1,"title":"Future Game","somethingGogAddedLater":{"a":1},
        "worksOn":{"Windows":true,"Xbox":true}}"#;
    let http = FakePages::new(&[(200, &page(with_extra, 1))]);

    let catalog = fetch(&http, "a-token", T0).unwrap();

    assert_eq!(catalog.len(), 1);
    assert_eq!(
        catalog.games[0].runs_on,
        vec![Os::Windows],
        "a platform we do not know about is ignored, not an error"
    );
}

#[test]
fn a_string_id_is_accepted_as_well_as_a_number() {
    let http = FakePages::new(&[(200, &page(r#"{"id":"1207658930","title":"Bastion"}"#, 1))]);

    let catalog = fetch(&http, "a-token", T0).unwrap();

    assert_eq!(catalog.games[0].id, ProductId::new("1207658930"));
}

#[test]
fn a_refused_request_says_what_gog_answered() {
    let http = FakePages::new(&[(401, r#"{"error":"invalid_token"}"#)]);

    let error = fetch(&http, "stale", T0).unwrap_err();

    assert!(error.to_string().contains("401"), "{error:?}");
    assert!(error.to_string().contains("invalid_token"), "{error:?}");
}

#[test]
fn a_response_that_is_not_the_expected_shape_says_so() {
    let http = FakePages::new(&[(200, "<html>maintenance</html>")]);

    let error = fetch(&http, "a-token", T0).unwrap_err();

    assert!(error.to_string().contains("changed the shape"), "{error:?}");
}

#[test]
fn search_is_a_case_insensitive_substring_and_empty_matches_everything() {
    let http = FakePages::new(&[(200, &page(&format!("{BASTION},{GOTHIC}"), 1))]);
    let catalog = fetch(&http, "a-token", T0).unwrap();

    assert_eq!(catalog.search("got").len(), 1);
    assert_eq!(catalog.search("GOTHIC").len(), 1);
    assert_eq!(catalog.search("  ").len(), 2);
    assert_eq!(catalog.search("nothing").len(), 0);
}

#[test]
fn a_game_can_be_found_by_the_id_everything_else_keys_on() {
    let http = FakePages::new(&[(200, &page(BASTION, 1))]);
    let catalog = fetch(&http, "a-token", T0).unwrap();

    let found = catalog.get(&ProductId::new("1207658930")).unwrap();

    assert_eq!(found.title, "Bastion");
    assert_eq!(catalog.get(&ProductId::new("nope")), None);
}

#[test]
fn the_cache_lives_in_the_cache_directory() {
    let paths = Paths {
        config_dir: "/c".to_string(),
        data_dir: "/d".to_string(),
        cache_dir: "/k/".to_string(),
    };

    assert_eq!(Catalog::cache_file(&paths), "/k/catalog.json");
}

#[test]
fn the_page_address_asks_for_games_only() {
    assert_eq!(
        page_url(3),
        "https://embed.gog.com/account/getFilteredProducts?mediaType=1&page=3"
    );
}

#[test]
fn an_empty_catalog_has_nothing_to_find() {
    let catalog = Catalog::empty(T0);

    assert!(catalog.is_empty());
    assert!(catalog.search("").is_empty());
    let game = Game {
        id: ProductId::new("1"),
        title: "T".to_string(),
        slug: "t".to_string(),
        image: None,
        runs_on: vec![Os::Linux],
    };
    assert!(!game.has_windows_build());
    assert_eq!(ProductId::new("1").as_str(), "1");
}

fn product(id: Option<&str>, title: Option<&str>, flags: &[(&str, bool)]) -> gamestore::catalog::Product {
    gamestore::catalog::Product {
        id: id.map(str::to_string),
        title: title.map(str::to_string),
        slug: None,
        image: Some(String::new()),
        works_on: flags.iter().map(|(name, on)| (name.to_string(), *on)).collect(),
    }
}

#[test]
fn the_last_usable_product_with_an_id_wins_and_unusable_ones_are_skipped() {
    let products = vec![
        product(Some("2"), Some("zeta"), &[("Linux", true), ("windows", true)]),
        product(None, Some("no id"), &[]),
        product(Some("1"), Some("   "), &[]),
        product(Some("2"), Some("Alpha"), &[("MAC", true), ("Windows", true), ("Linux", false)]),
        product(Some("3"), Some("beta"), &[]),
    ];

    let catalog = gamestore::catalog::catalog_from(products, T0);

    let titles: Vec<&str> = catalog.games.iter().map(|g| g.title.as_str()).collect();
    assert_eq!(titles, vec!["Alpha", "beta"]);
    assert_eq!(catalog.games[0].runs_on, vec![Os::Windows, Os::Mac]);
    assert_eq!(catalog.games[0].image, None);
    assert_eq!(catalog.games[0].slug, "");
    assert_eq!(catalog.fetched_at, T0);
}

#[test]
fn a_page_is_read_field_by_field() {
    let (products, total) = gamestore::catalog::read_page(
        r#"{"products":[{"id":7,"title":"Seven","slug":null,"worksOn":{"Linux":true,"Windows":false}}],"totalPages":null}"#,
    )
    .unwrap();

    assert_eq!(total, None);
    assert_eq!(products.len(), 1);
    assert_eq!(products[0].id.as_deref(), Some("7"));
    assert_eq!(products[0].title.as_deref(), Some("Seven"));
    assert_eq!(products[0].slug, None);
    assert_eq!(products[0].works_on.len(), 2);
    assert!(products[0].works_on.contains(&("Linux".to_string(), true)));
}

#[test]
fn a_page_that_breaks_its_shape_says_where() {

    assert_eq!(read_page("[]").err().as_deref(), Some("the page is not a JSON object"));
    assert_eq!(read_page(r#"{"products":{}}"#).err().as_deref(), Some("`products` is not a list"));
    assert_eq!(read_page(r#"{"totalPages":2.5}"#).err().as_deref(), Some("`totalPages` is not a page count"));
    assert_eq!(read_page(r#"{"totalPages":4294967296}"#).err().as_deref(), Some("`totalPages` is not a page count"));
    assert_eq!(read_page(r#"{"products":[3]}"#).err().as_deref(), Some("a product is not a JSON object"));
    assert_eq!(read_page(r#"{"products":[{"title":1}]}"#).err().as_deref(), Some("`title` is not a string"));
    assert_eq!(
        read_page(r#"{"products":[{"worksOn":{"Linux":"yes"}}]}"#).err().as_deref(),
        Some("a `worksOn` flag is not true or false")
    );
    assert_eq!(read_page(r#"{"products":[{"worksOn":[]}]}"#).err().as_deref(), Some("`worksOn` is not a JSON object"));
    assert_eq!(read_page(r#"{"totalPages":3}"#).ok().map(|page| page.1), Some(Some(3)));
}

#[test]
fn one_answer_says_whether_another_page_follows() {
    let ok = |body: &str| Response { status: 200, body: body.to_string() };

    let (products, more) = gamestore::catalog::read_response(&ok(&page(BASTION, 3)), 2).unwrap();
    assert_eq!(products.len(), 1);
    assert!(more);
    let (_, more) = gamestore::catalog::read_response(&ok(&page(BASTION, 3)), 3).unwrap();
    assert!(!more);
    let (_, more) = gamestore::catalog::read_response(&ok(r#"{"totalPages":0}"#), 1).unwrap();
    assert!(!more);

    let refused = Response { status: 401, body: "nope\nsecond line".to_string() };
    let error = gamestore::catalog::read_response(&refused, 1).err().unwrap();
    assert_eq!(error.to_string(), "the GOG library could not be read: GOG refused the library request with status 401 (nope)");
}
