use star_polygon::gaia_db::{read_headers, read_star, read_stars, DbStar, HEADERS, HEADER_SIZE, RECORD_SIZE};

fn header(text: &str) -> Vec<u8> {
    let mut bytes = vec![text.len() as u8];
    bytes.extend_from_slice(text.as_bytes());
    bytes.resize(HEADER_SIZE, 0xAA);
    bytes
}

fn record(id: u64, ra: f64, dec: f64, magnitude: f32) -> Vec<u8> {
    let mut bytes = Vec::new();
    bytes.extend_from_slice(&id.to_le_bytes());
    bytes.extend_from_slice(&ra.to_le_bytes());
    bytes.extend_from_slice(&dec.to_le_bytes());
    bytes.extend_from_slice(&magnitude.to_le_bytes());
    bytes
}

fn database() -> Vec<u8> {
    let mut data = Vec::new();
    data.extend(header("source_id"));
    data.extend(header(""));
    data.extend(header("phot_g_mean_mag"));
    data.extend(record(4295806720, 44.99615, 0.00561, 17.641));
    data.extend(record(0x0102030405060708, 359.5, -89.25, -1.46));
    data
}

#[test]
fn sizes_of_the_database() {
    assert_eq!(HEADERS, 3);
    assert_eq!(HEADER_SIZE, 256);
    assert_eq!(RECORD_SIZE, 28);
    assert_eq!(database().len(), 3 * 256 + 2 * 28);
}

#[test]
fn a_record_is_read_lowest_byte_first() {
    let bytes: Vec<u8> = (1..=28).collect();
    let star = read_star(&bytes, 0);
    assert_eq!(
        star,
        DbStar {
            id: 0x0807060504030201,
            ra: 0x100F0E0D0C0B0A09,
            dec: 0x1817161514131211,
            magnitude: 0x1C1B1A19,
        }
    );
}

#[test]
fn a_record_is_read_where_it_starts() {
    let data = database();
    let star = read_star(&data, 3 * 256 + 28);
    assert_eq!(star.id, 0x0102030405060708);
    assert_eq!(f64::from_bits(star.ra), 359.5);
    assert_eq!(f64::from_bits(star.dec), -89.25);
    assert_eq!(f32::from_bits(star.magnitude), -1.46);
}

#[test]
fn all_records_are_read_in_order() {
    let stars = read_stars(&database());
    assert_eq!(stars.len(), 2);
    assert_eq!(stars[0].id, 4295806720);
    assert_eq!(f64::from_bits(stars[0].ra), 44.99615);
    assert_eq!(f64::from_bits(stars[0].dec), 0.00561);
    assert_eq!(f32::from_bits(stars[0].magnitude), 17.641);
    assert_eq!(stars[1].id, 0x0102030405060708);
}

#[test]
fn a_record_cut_short_is_left_out() {
    let mut data = database();
    data.extend_from_slice(&[1, 2, 3, 4, 5, 6, 7, 8, 9, 10, 11, 12, 13, 14, 15, 16, 17, 18, 19, 20, 21, 22, 23, 24, 25, 26, 27]);
    assert_eq!(read_stars(&data).len(), 2);
    data.push(28);
    assert_eq!(read_stars(&data).len(), 3);
    assert_eq!(read_stars(&data)[2].magnitude, 0x1C1B1A19);
}

#[test]
fn no_records_without_the_headers() {
    assert!(read_stars(&[]).is_empty());
    assert!(read_stars(&database()[..767]).is_empty());
    assert!(read_stars(&database()[..768]).is_empty());
    assert!(read_stars(&database()[..768 + 27]).is_empty());
    assert_eq!(read_stars(&database()[..768 + 28]).len(), 1);
}

#[test]
fn headers_are_read_by_their_length() {
    let headers = read_headers(&database()).unwrap();
    assert_eq!(headers.len(), 3);
    assert_eq!(headers[0], b"source_id".to_vec());
    assert_eq!(headers[1], Vec::<u8>::new());
    assert_eq!(headers[2], b"phot_g_mean_mag".to_vec());
    let mut data = database();
    data[256] = 255;
    assert_eq!(read_headers(&data).unwrap()[1], vec![0xAA; 255]);
}

#[test]
fn headers_need_all_their_bytes() {
    assert!(read_headers(&[]).is_none());
    assert!(read_headers(&database()[..767]).is_none());
    assert!(read_headers(&database()[..768]).is_some());
}
