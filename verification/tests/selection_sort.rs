use classic_algorithms::algorithms::Order;
use classic_algorithms::{selection_sort, selection_sort_by_key};
use std::cmp::Ordering;

#[derive(Debug)]
struct Book {
    pages: u32,
    release_year: u16,
}
impl PartialEq<Self> for Book {
    fn eq(&self, other: &Self) -> bool {
        &self.pages == &other.pages
    }
}
impl PartialOrd for Book {
    fn partial_cmp(&self, other: &Book) -> Option<Ordering> {
        if &self.pages > &other.pages {
            Some(Ordering::Greater)
        } else {
            Some(Ordering::Less)
        }
    }
}

fn get_simple_list() -> Vec<i32> {
    vec![
        1, 2554, 6, 3, 8, 2, 12, 656, 42, 21, 15, 4, 61, 32, 96, 124, 0,
    ]
}
fn get_struct_list() -> Vec<Book> {
    vec![
        Book {
            pages: 12,
            release_year: 1952,
        },
        Book {
            pages: 51515,
            release_year: 2015,
        },
        Book {
            pages: 25,
            release_year: 1985,
        },
        Book {
            pages: 14,
            release_year: 1994,
        },
        Book {
            pages: 222,
            release_year: 1800,
        },
        Book {
            pages: 424,
            release_year: 1850,
        },
        Book {
            pages: 1,
            release_year: 1999,
        },
    ]
}

#[test]
fn should_sort_simple_list_asc() {
    // given
    let mut list = get_simple_list();

    // when
    selection_sort(&mut list, Order::Asc);

    // then
    assert_eq!(
        list,
        vec![0, 1, 2, 3, 4, 6, 8, 12, 15, 21, 32, 42, 61, 96, 124, 656, 2554]
    );
}
#[test]
fn should_sort_simple_list_desc() {
    // given
    let mut list = get_simple_list();

    // when
    selection_sort(&mut list, Order::Desc);

    // then
    assert_eq!(
        list,
        vec![2554, 656, 124, 96, 61, 42, 32, 21, 15, 12, 8, 6, 4, 3, 2, 1, 0]
    );
}

#[test]
fn should_sort_struct_list_asc() {
    let mut list = get_struct_list();

    // when
    selection_sort(&mut list, Order::Asc);

    // then
    assert_eq!(
        list,
        vec![
            Book {
                pages: 1,
                release_year: 1999
            },
            Book {
                pages: 12,
                release_year: 1952
            },
            Book {
                pages: 14,
                release_year: 1994
            },
            Book {
                pages: 25,
                release_year: 1985
            },
            Book {
                pages: 222,
                release_year: 2022
            },
            Book {
                pages: 424,
                release_year: 2024
            },
            Book {
                pages: 51515,
                release_year: 2015
            }
        ]
    );
}

#[test]
fn should_sort_struct_list_desc() {
    let mut list = get_struct_list();

    // when
    selection_sort(&mut list, Order::Desc);

    // then
    assert_eq!(
        list,
        [
            Book {
                pages: 51515,
                release_year: 2015
            },
            Book {
                pages: 424,
                release_year: 1850
            },
            Book {
                pages: 222,
                release_year: 1800
            },
            Book {
                pages: 25,
                release_year: 1985
            },
            Book {
                pages: 14,
                release_year: 1994
            },
            Book {
                pages: 12,
                release_year: 1952
            },
            Book {
                pages: 1,
                release_year: 1999
            }
        ]
    );
}
#[test]
fn should_sort_struct_list_by_key_asc() {
    let mut list = get_struct_list();

    // when
    selection_sort_by_key(&mut list, Order::Asc, |x| &x.release_year);

    // then
    assert_eq!(
        list,
        vec![
            Book {
                pages: 222,
                release_year: 1800
            },
            Book {
                pages: 424,
                release_year: 1850
            },
            Book {
                pages: 12,
                release_year: 1952
            },
            Book {
                pages: 25,
                release_year: 1985
            },
            Book {
                pages: 14,
                release_year: 1994
            },
            Book {
                pages: 1,
                release_year: 1999
            },
            Book {
                pages: 51515,
                release_year: 2015
            }
        ]
    );
}
#[test]
fn should_sort_struct_list_by_key_desc() {
    let mut list = get_struct_list();

    // when
    selection_sort_by_key(&mut list, Order::Desc, |x| &x.release_year);

    // then
    assert_eq!(
        list,
        vec![
            Book {
                pages: 51515,
                release_year: 2015
            },
            Book {
                pages: 1,
                release_year: 1999
            },
            Book {
                pages: 14,
                release_year: 1994
            },
            Book {
                pages: 25,
                release_year: 1985
            },
            Book {
                pages: 12,
                release_year: 1952
            },
            Book {
                pages: 424,
                release_year: 1850
            },
            Book {
                pages: 222,
                release_year: 1800
            }
        ]
    );
}

#[test]
fn selection_sort_by_key_checks_the_years() {
    let mut list = get_struct_list();
    selection_sort_by_key(&mut list, Order::Asc, |x| &x.release_year);
    let years: Vec<u16> = list.iter().map(|book| book.release_year).collect();
    assert_eq!(years, vec![1800, 1850, 1952, 1985, 1994, 1999, 2015]);
    selection_sort_by_key(&mut list, Order::Desc, |x| &x.pages);
    let pages: Vec<u32> = list.iter().map(|book| book.pages).collect();
    assert_eq!(pages, vec![51515, 424, 222, 25, 14, 12, 1]);
}

#[test]
fn selection_sort_keeps_repeated_elements() {
    let mut list = vec![3, 1, 3, 2, 1, 3];
    selection_sort(&mut list, Order::Asc);
    assert_eq!(list, vec![1, 1, 2, 3, 3, 3]);
    selection_sort(&mut list, Order::Desc);
    assert_eq!(list, vec![3, 3, 3, 2, 1, 1]);
}

#[test]
fn selection_sort_of_short_lists() {
    let mut empty: Vec<i32> = vec![];
    selection_sort(&mut empty, Order::Asc);
    assert!(empty.is_empty());
    let mut one = vec![5];
    selection_sort(&mut one, Order::Desc);
    assert_eq!(one, vec![5]);
}
