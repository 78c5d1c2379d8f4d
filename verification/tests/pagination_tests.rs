use trip_query::pagination::{page_window, PagedResult, Pagination};
use trip_query::results::page_of_trips;
use trip_query::trip::Trip;

fn trip(key: &str) -> Trip {
    Trip {
        vendor_id: String::from("1"),
        tpep_pickup_datetime: String::from("2020-01-01 10:00:00"),
        tpep_dropoff_datetime: String::from("2020-01-01 10:30:00"),
        passenger_count: String::from("2"),
        trip_distance: String::from("3.5"),
        ratecode_id: String::from("1"),
        store_and_fwd_flag: String::from("N"),
        pu_location_id: String::from("100"),
        do_location_id: String::from("200"),
        payment_type: String::from("1"),
        fare_amount: String::from("10.0"),
        extra: String::from("0.5"),
        mta_tax: String::from("0.5"),
        tip_amount: String::from("2.0"),
        tolls_amount: String::from("0"),
        improvement_surcharge: String::from("0.3"),
        total_amount: String::from("15.8"),
        congestion_surcharge: String::from("2.5"),
        index: String::from(key),
    }
}

#[test]
fn default_pagination_is_first_page_of_fifty() {
    let p = Pagination::default();
    assert_eq!(p.page, 1);
    assert_eq!(p.per_page, 50);
}

#[test]
fn page_count_is_ceiling_of_total_over_per_page() {
    let p = Pagination {
        page: 1,
        per_page: 50,
    };
    let r: PagedResult<u32> = PagedResult::new(Vec::new(), 105, &p, 0);
    assert_eq!(r.pages, 3);
    assert_eq!(r.total, 105);
    assert_eq!(r.per_page, 50);
    let exact: PagedResult<u32> = PagedResult::new(Vec::new(), 100, &p, 0);
    assert_eq!(exact.pages, 2);
    let none: PagedResult<u32> = PagedResult::new(Vec::new(), 0, &p, 0);
    assert_eq!(none.pages, 0);
    let zero_size: PagedResult<u32> = PagedResult::new(
        Vec::new(),
        10,
        &Pagination {
            page: 1,
            per_page: 0,
        },
        0,
    );
    assert_eq!(zero_size.pages, 0);
}

#[test]
fn last_page_of_105_holds_exactly_5_items() {
    let items: Vec<Trip> = (0..105).map(|i| trip(&format!("k{}", i))).collect();
    let p = Pagination {
        page: 3,
        per_page: 50,
    };
    let page = page_of_trips(&items, &p);
    assert_eq!(page.len(), 5);
    assert_eq!(page[0].index, "k100");
    assert_eq!(page[4].index, "k104");
    let r = PagedResult::new(page, items.len(), &p, 7);
    assert_eq!(r.pages, 3);
    assert_eq!(r.page, 3);
    assert_eq!(r.items.len(), 5);
    assert_eq!(r.time_ms, 7);
}

#[test]
fn page_window_clamps_past_the_end() {
    let p = Pagination {
        page: 9,
        per_page: 50,
    };
    assert_eq!(page_window(105, &p), (105, 0));
    let first = Pagination {
        page: 1,
        per_page: 50,
    };
    assert_eq!(page_window(105, &first), (0, 50));
    let zero_page = Pagination {
        page: 0,
        per_page: 10,
    };
    assert_eq!(page_window(25, &zero_page), (0, 10));
}
