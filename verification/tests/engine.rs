//! Tests of the lifecycle engine: mint, breed, transfer, listing and
//! purchase, with the error taxonomy and the end-to-end sale scenario.

use kitties::Error;
use kitties::Kitty;
use kitties::KittyInSale;
use kitties::Module;
use kitties::combine_dna;

#[test]
fn combine_dna_worked_example() {
    assert_eq!(combine_dna(0b11110000, 0b11001100, 0b10101010), 0b11100100);
}

#[test]
fn combine_dna_identical_parents() {
    let samples: Vec<u8> = vec![0, 1, 0x0F, 0xF0, 0xAB, 0xFF];
    let selectors: Vec<u8> = vec![0, 0x55, 0xAA, 0xFF, 0x13];
    for &x in samples.iter() {
        for &s in selectors.iter() {
            assert_eq!(combine_dna(x, x, s), x);
        }
    }
}

fn mix(a: [u8; 16], b: [u8; 16], sel: [u8; 16]) -> [u8; 16] {
    let mut out = [0u8; 16];
    for i in 0..16 {
        out[i] = combine_dna(a[i], b[i], sel[i]);
    }
    out
}

#[test]
fn create_assigns_increasing_ids() {
    let mut m = Module::new();
    assert_eq!(m.kitties_count(), 0);
    assert_eq!(m.create(1, [7u8; 16]), Ok(0));
    assert_eq!(m.create(1, [9u8; 16]), Ok(1));
    assert_eq!(m.kitties_count(), 2);

    let k0 = m.kitty(0).unwrap();
    assert_eq!(k0.dna, [7u8; 16]);
    assert_eq!(k0.gen, 0);
    assert_eq!(k0.price, 0);
    assert_eq!(m.kitty(2), None);

    assert_eq!(m.owned_kitties(1), vec![1, 0]);
    assert_eq!(m.owned_kitties(2), Vec::<u32>::new());
}

#[test]
fn breed_rejects_missing_and_identical_parents() {
    let mut m = Module::new();
    m.create(1, [1u8; 16]).unwrap();
    m.create(1, [2u8; 16]).unwrap();

    assert_eq!(m.breed(1, 0, 5, [0u8; 16]), Err(Error::NotFound));
    assert_eq!(m.breed(1, 5, 0, [0u8; 16]), Err(Error::NotFound));
    assert_eq!(m.breed(1, 1, 1, [0u8; 16]), Err(Error::IdenticalParents));
    assert_eq!(m.kitties_count(), 2);
    assert_eq!(m.owned_kitties(1), vec![1, 0]);
}

#[test]
fn breed_mixes_dna_and_raises_generation() {
    let mut m = Module::new();
    let dna_a: [u8; 16] = [0b11110000; 16];
    let dna_b: [u8; 16] = [0b11001100; 16];
    let sel: [u8; 16] = [0b10101010; 16];
    m.create(1, dna_a).unwrap();
    m.create(2, dna_b).unwrap();

    let child = m.breed(3, 0, 1, sel).unwrap();
    assert_eq!(child, 2);
    let record = m.kitty(2).unwrap();
    assert_eq!(record.dna, [0b11100100; 16]);
    assert_eq!(record.dna, mix(dna_a, dna_b, sel));
    assert_eq!(record.gen, 1);
    assert_eq!(record.price, 0);
    assert_eq!(m.owned_kitties(3), vec![2]);

    let grandchild = m.breed(3, 2, 0, sel).unwrap();
    assert_eq!(m.kitty(grandchild).unwrap().gen, 2);
}

#[test]
fn transfer_moves_ownership_and_rejects_bad_calls() {
    let mut m = Module::new();
    m.create(1, [1u8; 16]).unwrap();
    m.create(1, [2u8; 16]).unwrap();

    assert_eq!(m.transfer(1, 2, 9), Err(Error::NotFound));
    assert_eq!(m.transfer(2, 3, 0), Err(Error::NotOwned));
    assert_eq!(m.transfer(1, 1, 0), Err(Error::SelfTransfer));
    assert_eq!(m.owned_kitties(1), vec![1, 0]);

    assert_eq!(m.transfer(1, 2, 0), Ok(()));
    assert_eq!(m.owned_kitties(1), vec![1]);
    assert_eq!(m.owned_kitties(2), vec![0]);
    assert!(m.owns(2, 0));
    assert!(!m.owns(1, 0));
}

#[test]
fn set_price_and_remove_price_drive_the_ledger() {
    let mut m = Module::new();
    m.create(1, [1u8; 16]).unwrap();

    assert_eq!(m.set_price(1, 9, 50), Err(Error::NotFound));
    assert_eq!(m.set_price(2, 0, 50), Err(Error::NotOwned));
    assert_eq!(m.set_price(1, 0, 0), Err(Error::InvalidPrice));
    assert_eq!(m.kitty_price(0), None);

    assert_eq!(m.set_price(1, 0, 50), Ok(()));
    assert_eq!(m.kitty_price(0), Some(KittyInSale { owned: Some(1), price: 50 }));
    assert_eq!(m.kitty(0).unwrap().price, 50);

    assert_eq!(m.set_price(1, 0, 75), Ok(()));
    assert_eq!(m.kitty_price(0), Some(KittyInSale { owned: Some(1), price: 75 }));

    assert_eq!(m.remove_price(2, 0), Err(Error::NotOwned));
    assert_eq!(m.remove_price(1, 0), Ok(()));
    assert_eq!(m.kitty_price(0), None);
    assert_eq!(m.kitty(0).unwrap().price, 0);

    assert_eq!(m.remove_price(1, 0), Ok(()));
    assert_eq!(m.kitty_price(0), None);
}

#[test]
fn buy_checks_the_listing() {
    let mut m = Module::new();
    m.create(1, [1u8; 16]).unwrap();

    assert_eq!(m.check_buy(2, 9), Err(Error::NotFound));
    assert_eq!(m.check_buy(2, 0), Err(Error::NotForSale));

    m.set_price(1, 0, 40).unwrap();
    assert_eq!(m.check_buy(1, 0), Err(Error::BuyOwnAsset));
    assert_eq!(m.check_buy(2, 0), Ok((1, 40)));
    assert_eq!(m.do_buy(1, 0), Err(Error::BuyOwnAsset));

    assert_eq!(m.do_buy(2, 0), Ok((1, 40)));
    assert!(m.owns(2, 0));
    assert!(!m.owns(1, 0));
    assert_eq!(m.kitty_price(0), None);
    assert_eq!(m.check_buy(3, 0), Err(Error::NotForSale));
}

#[test]
fn transfer_invalidates_a_listing() {
    let mut m = Module::new();
    m.create(1, [1u8; 16]).unwrap();
    m.set_price(1, 0, 30).unwrap();
    assert_eq!(m.check_buy(2, 0), Ok((1, 30)));

    m.transfer(1, 2, 0).unwrap();

    assert_eq!(m.kitty_price(0), None);
    assert_eq!(m.check_buy(3, 0), Err(Error::NotForSale));
    assert_eq!(m.do_buy(3, 0), Err(Error::NotForSale));
    assert_eq!(m.kitty(0).unwrap().price, 0);
}

#[test]
fn end_to_end_sale_scenario() {
    let mut m = Module::new();
    let x: u64 = 10;
    let y: u64 = 20;
    let dna0: [u8; 16] = [0x12; 16];
    let dna1: [u8; 16] = [0x34; 16];
    let seed: [u8; 16] = [0x5A; 16];

    assert_eq!(m.create(x, dna0), Ok(0));
    assert_eq!(m.create(x, dna1), Ok(1));
    assert_eq!(m.kitty(0).unwrap().gen, 0);
    assert_eq!(m.kitty(1).unwrap().gen, 0);

    assert_eq!(m.breed(x, 0, 1, seed), Ok(2));
    let child = m.kitty(2).unwrap();
    assert_eq!(child.gen, 1);
    assert_eq!(child.dna, mix(dna0, dna1, seed));

    assert_eq!(m.set_price(x, 2, 50), Ok(()));

    let mut balance_x: u64 = 0;
    let mut balance_y: u64 = 80;
    let (seller, price) = m.check_buy(y, 2).unwrap();
    assert_eq!((seller, price), (x, 50));
    assert!(balance_y >= price);
    balance_y -= price;
    balance_x += price;
    assert_eq!(m.do_buy(y, 2), Ok((x, 50)));

    assert_eq!((balance_x, balance_y), (50, 30));
    assert_eq!(m.owned_kitties(y), vec![2]);
    assert_eq!(m.owned_kitties(x), vec![1, 0]);
    assert_eq!(m.kitty_price(2), None);
}

#[test]
fn kitty_new_builds_the_record() {
    let k = Kitty::new([3u8; 16], 4, 5);
    assert_eq!(k.dna, [3u8; 16]);
    assert_eq!(k.gen, 4);
    assert_eq!(k.price, 5);
}

#[test]
fn ownership_stays_exclusive_across_operations() {
    let mut m = Module::new();
    let accounts: [u64; 3] = [1, 2, 3];
    m.create(1, [1u8; 16]).unwrap();
    m.create(2, [2u8; 16]).unwrap();
    m.breed(1, 0, 1, [0xAAu8; 16]).unwrap();
    m.transfer(1, 3, 2).unwrap();
    m.set_price(3, 2, 10).unwrap();
    m.do_buy(2, 2).unwrap();
    m.transfer(2, 1, 2).unwrap();

    for id in 0..m.kitties_count() {
        let holders = accounts.iter().filter(|&&a| m.owns(a, id)).count();
        assert_eq!(holders, 1);
    }
}
