//! Share renewal against the classic (K, N) splitting and reconstruction
//! primitives.

use shared_secret_server::share::{Metadata, Share, ShareMeta};
use sss_rs::basic_sharing::{from_secrets, reconstruct_secrets};

#[test]
fn test_renewable_share() {
    let mut share = Share::new(1, vec![1, 2, 3]);
    let mut share_2 = Share::new(1, vec![1, 2, 3]);
    let renewable_share = share.renew_poly(&Metadata::new(2, 3, 3));
    renewable_share.renew(&mut share_2);
    renewable_share.renew(&mut share);
    assert_eq!(share, share_2);
}

#[test]
fn secret_test_renewable_share() {
    let mut share = Share::new(1, vec![1, 2, 3]);
    let mut share_2 = Share::new(1, vec![1, 2, 3]);
    let renewable_share = share.renew_poly(&Metadata::new(2, 3, 3));
    renewable_share.renew(&mut share_2);
    renewable_share.renew(&mut share);
    assert_eq!(share, share_2);
}

#[test]
fn test_renewable_share_with_recovery() {
    let shares_required = 2;
    let shares_to_create = 3;
    let secret: Vec<u8> = vec![5, 4, 9, 1, 2, 128, 43];
    let shares = from_secrets(&secret, shares_required, shares_to_create, None).unwrap();

    let mut shares_vec: Vec<Share> = shares.iter().map(Share::from_points).collect::<Vec<_>>();
    let share = shares_vec.first().unwrap();
    let stable_poly = share.renew_poly(&Metadata::new(
        shares_required,
        shares_to_create,
        secret.len(),
    ));

    shares_vec.iter_mut().for_each(|i| stable_poly.renew(i));

    shares_vec.remove(2);

    let shares: Vec<Vec<(u8, u8)>> = shares_vec.iter().map(|s| s.to_points()).collect::<Vec<_>>();

    let recon = reconstruct_secrets(shares).unwrap();
    assert_eq!(secret, recon);
}

#[test]
fn secret_test_renewable_share_with_recovery() {
    let shares_required = 2;
    let shares_to_create = 3;
    let secret: Vec<u8> = vec![5, 4, 9, 1, 2, 128, 43];
    let shares = from_secrets(&secret, shares_required, shares_to_create, None).unwrap();

    let mut shares_vec: Vec<Share> = shares.iter().map(Share::from_points).collect::<Vec<_>>();
    let share = shares_vec.first().unwrap();
    let stable_poly = share.renew_poly(&Metadata::new(
        shares_required,
        shares_to_create,
        secret.len(),
    ));

    shares_vec.iter_mut().for_each(|i| stable_poly.renew(i));

    shares_vec.remove(2);

    let shares: Vec<Vec<(u8, u8)>> = shares_vec.iter().map(|s| s.to_points()).collect::<Vec<_>>();

    let recon = reconstruct_secrets(shares).unwrap();
    assert_eq!(secret, recon);
}

#[test]
fn share_point_conversions_round_trip() {
    let share = Share::new(3, vec![10, 20, 30]);
    let points = share.to_points();
    assert_eq!(points, vec![(3, 10), (3, 20), (3, 30)]);
    let back = Share::from_points(&points);
    assert_eq!(back, share);
    assert_eq!(share.to_bytes(), vec![3, 10, 20, 30]);
    assert_eq!(share.id(), 3);
    assert_eq!(share.ys_len(), 3);
}

#[test]
fn renewal_delta_share_repeats_one_evaluation() {
    let share = Share::new(1, vec![9, 9, 9, 9]);
    let poly = share.renew_poly(&Metadata::new(3, 5, 4));
    let delta = poly.get_share(2, 4);
    assert_eq!(delta.id(), 2);
    assert_eq!(delta.ys_len(), 4);
    let bytes = delta.to_bytes();
    assert!(bytes[1..].iter().all(|&b| b == bytes[1]));
}

#[test]
fn renew_with_share_adds_pointwise() {
    let stored = Share::new(2, vec![0x10, 0x20, 0x30]);
    let delta = Share::new(2, vec![0x01, 0x02, 0x03]);
    let merged =
        shared_secret_server::share::RenewableShare::renew_with_share(&delta, &stored);
    assert_eq!(merged.to_bytes(), vec![2, 0x11, 0x22, 0x33]);
    let record = ShareMeta::new(merged, Metadata::new(2, 3, 3));
    assert_eq!(record.meta, Metadata::new(2, 3, 3));
}
