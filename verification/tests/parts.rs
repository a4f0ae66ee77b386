use ip_reassembly::cache::{IpLayerFragmentCache, TimerAction};
use ip_reassembly::fragments::{insert_body, PacketBodyFragment};
use ip_reassembly::gaps::{fill_gap, find_gap, MAX_FRAGMENT_BLOCKS};
use ip_reassembly::packet::{FragmentCacheKey, FragmentablePacket, IpAddr, IpVersion};
use ip_reassembly::process::{get_header, process_fragment};
use ip_reassembly::reassemble::{
    ipv4_checksum_bytes, reassemble_packet_helper, store_ipv4_checksum, FragmentReassemblyError,
};
use ip_reassembly::state::{FragmentCacheData, FRAGMENT_BLOCK_SIZE};
use ip_reassembly::wire::copy_bytes;

#[test]
fn test_constants() {
    assert_eq!(FRAGMENT_BLOCK_SIZE, 8);
    assert_eq!(MAX_FRAGMENT_BLOCKS, 8191);
    assert_eq!(ip_reassembly::cache::REASSEMBLY_TIMEOUT_SECONDS, 60);
}

#[test]
fn test_find_gap_in_fresh_list() {
    let data = FragmentCacheData::new();
    assert_eq!(data.missing_blocks, vec![(0, 8191)]);
    assert_eq!(find_gap(&data.missing_blocks, (0, 0)), Some((0, 8191)));
    assert_eq!(find_gap(&data.missing_blocks, (4, 7)), Some((0, 8191)));
    assert_eq!(find_gap(&data.missing_blocks, (8191, 8191)), Some((0, 8191)));
    assert_eq!(find_gap(&data.missing_blocks, (8191, 8192)), None);
    assert_eq!(find_gap(&data.missing_blocks, (8192, 8192)), None);
}

#[test]
fn test_find_gap_passes_over_gaps_apart() {
    let gaps = vec![(0, 1), (4, 7), (10, 8191)];
    assert_eq!(find_gap(&gaps, (0, 1)), Some((0, 1)));
    assert_eq!(find_gap(&gaps, (1, 1)), Some((0, 1)));
    assert_eq!(find_gap(&gaps, (5, 6)), Some((4, 7)));
    assert_eq!(find_gap(&gaps, (4, 7)), Some((4, 7)));
    assert_eq!(find_gap(&gaps, (10, 10)), Some((10, 8191)));
    assert_eq!(find_gap(&gaps, (8000, 8191)), Some((10, 8191)));
}

#[test]
fn test_find_gap_none() {
    let gaps = vec![(0, 1), (4, 7), (10, 8191)];
    // Between the gaps.
    assert_eq!(find_gap(&gaps, (2, 3)), None);
    assert_eq!(find_gap(&gaps, (8, 9)), None);
    // Partly in a gap.
    assert_eq!(find_gap(&gaps, (1, 2)), None);
    assert_eq!(find_gap(&gaps, (3, 4)), None);
    assert_eq!(find_gap(&gaps, (7, 8)), None);
    assert_eq!(find_gap(&gaps, (9, 12)), None);
    // Over more than one gap.
    assert_eq!(find_gap(&gaps, (0, 7)), None);
    assert_eq!(find_gap(&gaps, (5, 11)), None);
    // Nothing is missing.
    assert_eq!(find_gap(&Vec::new(), (0, 0)), None);
}

#[test]
fn test_fill_gap_in_the_middle() {
    let mut gaps = vec![(0, 8191)];
    fill_gap(&mut gaps, (4, 7), (0, 8191), true);
    assert_eq!(gaps, vec![(0, 3), (8, 8191)]);
    fill_gap(&mut gaps, (1, 2), (0, 3), true);
    assert_eq!(gaps, vec![(0, 0), (3, 3), (8, 8191)]);
    fill_gap(&mut gaps, (9, 9), (8, 8191), true);
    assert_eq!(gaps, vec![(0, 0), (3, 3), (8, 8), (10, 8191)]);
}

#[test]
fn test_fill_gap_at_its_ends() {
    let mut gaps = vec![(0, 3), (8, 20)];
    fill_gap(&mut gaps, (0, 1), (0, 3), true);
    assert_eq!(gaps, vec![(2, 3), (8, 20)]);
    fill_gap(&mut gaps, (19, 20), (8, 20), true);
    assert_eq!(gaps, vec![(2, 3), (8, 18)]);
    fill_gap(&mut gaps, (2, 3), (2, 3), true);
    assert_eq!(gaps, vec![(8, 18)]);
    fill_gap(&mut gaps, (8, 18), (8, 18), false);
    assert_eq!(gaps, Vec::new());
}

#[test]
fn test_fill_gap_with_last_fragment() {
    // Behind the last fragment nothing is expected.
    let mut gaps = vec![(0, 3), (8, 8191)];
    fill_gap(&mut gaps, (10, 11), (8, 8191), false);
    assert_eq!(gaps, vec![(0, 3), (8, 9)]);
    let mut gaps = vec![(0, 8191)];
    fill_gap(&mut gaps, (0, 2), (0, 8191), false);
    assert_eq!(gaps, Vec::new());
    let mut gaps = vec![(0, 3), (8, 8191)];
    fill_gap(&mut gaps, (2, 3), (0, 3), false);
    assert_eq!(gaps, vec![(0, 1), (8, 8191)]);
}

#[test]
fn test_packet_body_fragment_new() {
    let fragment = PacketBodyFragment::new(7, vec![1, 2, 3]);
    assert_eq!(fragment.offset, 7);
    assert_eq!(fragment.data, vec![1, 2, 3]);
}

#[test]
fn test_insert_body_keeps_order() {
    let mut fragments = Vec::new();
    for offset in [5u16, 1, 9, 0, 7, 8191] {
        insert_body(&mut fragments, PacketBodyFragment::new(offset, vec![offset as u8]));
    }
    let offsets: Vec<u16> = fragments.iter().map(|fragment| fragment.offset).collect();
    assert_eq!(offsets, vec![0, 1, 5, 7, 9, 8191]);
    let data: Vec<u8> = fragments.iter().map(|fragment| fragment.data[0]).collect();
    assert_eq!(data, vec![0, 1, 5, 7, 9, 255]);
}

#[test]
fn test_fragment_cache_data_new() {
    let data = FragmentCacheData::new();
    assert_eq!(data.missing_blocks, vec![(0, 8191)]);
    assert!(data.body_fragments.is_empty());
    assert_eq!(data.header, None);
    assert_eq!(data.total_size, 0);
}

#[test]
fn test_record_header_and_body() {
    let mut data = FragmentCacheData::new();
    data.record_body(2, vec![1; 16]);
    assert_eq!(data.total_size, 16);
    data.record_header(vec![9; 20]);
    assert_eq!(data.total_size, 36);
    assert_eq!(data.header, Some(vec![9; 20]));
    data.record_body(0, vec![2; 8]);
    assert_eq!(data.total_size, 44);
    assert_eq!(data.body_fragments[0].offset, 0);
    assert_eq!(data.body_fragments[1].offset, 2);
    assert_eq!(data.missing_blocks, vec![(0, 8191)]);
}

#[test]
fn test_ip_addr_version() {
    assert_eq!(IpAddr::V4(0).version(), IpVersion::V4);
    assert_eq!(IpAddr::V6(0).version(), IpVersion::V6);
}

#[test]
fn test_fragment_cache_key() {
    let key = FragmentCacheKey::new(IpAddr::V4(1), IpAddr::V4(2), 3);
    assert_eq!(key, FragmentCacheKey(IpAddr::V4(1), IpAddr::V4(2), 3));
    assert_ne!(key, FragmentCacheKey(IpAddr::V4(2), IpAddr::V4(1), 3));
    assert_ne!(key, FragmentCacheKey(IpAddr::V4(1), IpAddr::V4(2), 4));
    assert_ne!(key, FragmentCacheKey(IpAddr::V6(1), IpAddr::V6(2), 3));
}

#[test]
fn test_packet_new_and_parts() {
    let packet = FragmentablePacket::new(
        IpAddr::V4(1),
        IpAddr::V4(2),
        3,
        4,
        true,
        vec![5; 20],
        vec![6; 8],
    )
    .unwrap();
    assert_eq!(packet.src_ip(), IpAddr::V4(1));
    assert_eq!(packet.dst_ip(), IpAddr::V4(2));
    assert_eq!(packet.fragment_data(), (3, 4, true));
    assert_eq!(packet.header(), &vec![5; 20]);
    assert_eq!(packet.body(), &vec![6; 8]);
    assert_eq!(get_header(&packet), vec![5; 20]);
    assert_eq!(packet.into_body(), vec![6; 8]);
}

#[test]
fn test_packet_new_refuses() {
    let v4 = IpAddr::V4(1);
    let v6 = IpAddr::V6(1);
    // Addresses of two versions.
    assert!(FragmentablePacket::new(v4, v6, 0, 0, false, vec![0; 40], vec![]).is_none());
    assert!(FragmentablePacket::new(v6, v4, 0, 0, false, vec![0; 40], vec![]).is_none());
    // A header shorter than the fixed header.
    assert!(FragmentablePacket::new(v4, v4, 0, 0, false, vec![0; 19], vec![]).is_none());
    assert!(FragmentablePacket::new(v4, v4, 0, 0, false, vec![0; 20], vec![]).is_some());
    assert!(FragmentablePacket::new(v6, v6, 0, 0, false, vec![0; 39], vec![]).is_none());
    assert!(FragmentablePacket::new(v6, v6, 0, 0, false, vec![0; 40], vec![]).is_some());
    // A header longer than a header can be.
    assert!(FragmentablePacket::new(v4, v4, 0, 0, false, vec![0; 60], vec![]).is_some());
    assert!(FragmentablePacket::new(v4, v4, 0, 0, false, vec![0; 61], vec![]).is_none());
    assert!(FragmentablePacket::new(v6, v6, 0, 0, false, vec![0; 65575], vec![]).is_some());
    assert!(FragmentablePacket::new(v6, v6, 0, 0, false, vec![0; 65576], vec![]).is_none());
    // A packet longer than a packet can be.
    assert!(FragmentablePacket::new(v4, v4, 0, 0, false, vec![0; 20], vec![0; 65515]).is_some());
    assert!(FragmentablePacket::new(v4, v4, 0, 0, false, vec![0; 20], vec![0; 65516]).is_none());
    assert!(FragmentablePacket::new(v6, v6, 0, 0, false, vec![0; 40], vec![0; 65535]).is_some());
    assert!(FragmentablePacket::new(v6, v6, 0, 0, false, vec![0; 40], vec![0; 65536]).is_none());
    assert!(FragmentablePacket::new(v4, v4, 0, 0, false, vec![0; 65536], vec![]).is_none());
}

#[test]
fn test_cache_of_nothing() {
    let mut cache = IpLayerFragmentCache::new();
    let key = FragmentCacheKey::new(IpAddr::V4(1), IpAddr::V4(2), 3);
    assert!(!cache.contains_key(&key));
    assert!(cache.get(&key).is_none());
    assert!(cache.remove(&key).is_none());
    assert_eq!(cache.ready_len(&key), None);
}

#[test]
fn test_cache_get_and_remove() {
    let mut cache = IpLayerFragmentCache::new();
    let header = vec![0x45; 20];
    let (a, b) = (IpAddr::V4(1), IpAddr::V4(2));
    let key = FragmentCacheKey::new(a, b, 3);
    let other = FragmentCacheKey::new(a, b, 4);
    let packet = FragmentablePacket::new(a, b, 3, 2, true, header.clone(), vec![1; 8]).unwrap();
    let (_, timer) = process_fragment(&mut cache, packet);
    assert_eq!(timer, Some(TimerAction::Schedule { key, seconds: 60 }));
    let packet = FragmentablePacket::new(a, b, 4, 0, true, header.clone(), vec![1; 16]).unwrap();
    let (_, timer) = process_fragment(&mut cache, packet);
    assert_eq!(timer, Some(TimerAction::Schedule { key: other, seconds: 60 }));

    assert!(cache.contains_key(&key));
    let data = cache.get(&key).unwrap();
    assert_eq!(data.missing_blocks, vec![(0, 1), (3, 8191)]);
    assert_eq!(data.header, None);
    assert_eq!(data.total_size, 8);
    assert_eq!(cache.ready_len(&key), None);
    let data = cache.get(&other).unwrap();
    assert_eq!(data.missing_blocks, vec![(2, 8191)]);
    assert_eq!(data.header, Some(header));
    assert_eq!(data.total_size, 36);

    let data = cache.remove(&key).unwrap();
    assert_eq!(data.total_size, 8);
    assert_eq!(data.body_fragments.len(), 1);
    assert!(!cache.contains_key(&key));
    assert!(cache.contains_key(&other));
    cache.handle_reassembly_timer(other);
    assert!(!cache.contains_key(&other));
}

#[test]
fn test_copy_bytes() {
    let mut bytes = vec![0, 1, 2, 3, 4, 5];
    copy_bytes(&mut bytes, 2, &vec![9, 8, 7]);
    assert_eq!(bytes, vec![0, 1, 9, 8, 7, 5]);
    copy_bytes(&mut bytes, 6, &vec![]);
    assert_eq!(bytes, vec![0, 1, 9, 8, 7, 5]);
    copy_bytes(&mut bytes, 0, &vec![6, 6, 6, 6, 6, 6]);
    assert_eq!(bytes, vec![6; 6]);
}

#[test]
fn test_ipv4_checksum_bytes_and_store() {
    let mut bytes: Vec<u8> = (0..30).collect();
    assert_eq!(
        ipv4_checksum_bytes(&bytes, 20),
        vec![0, 1, 2, 3, 4, 5, 6, 7, 8, 9, 12, 13, 14, 15, 16, 17, 18, 19]
    );
    assert_eq!(ipv4_checksum_bytes(&bytes, 24).len(), 22);
    store_ipv4_checksum(&mut bytes, [0xab, 0xcd]);
    assert_eq!(bytes[9..13], [9, 0xab, 0xcd, 12]);
}

#[test]
fn test_reassemble_packet_helper_v4() {
    let mut header = vec![0u8; 20];
    header[0] = 0x45;
    header[4..8].copy_from_slice(&[0x12, 0x34, 0x20, 0x00]);
    header[10..12].copy_from_slice(&[0xff, 0xff]);
    let fragments = vec![
        PacketBodyFragment::new(0, vec![1; 8]),
        PacketBodyFragment::new(1, vec![2; 16]),
        PacketBodyFragment::new(3, vec![3; 2]),
    ];
    let mut buffer = vec![0xee; 50];
    let result = reassemble_packet_helper(&mut buffer, IpVersion::V4, header, fragments);
    assert_eq!(result, Ok(46));
    // 0x4500 + 0x002e = 0x452e, and its complement is 0xbad1.
    assert_eq!(
        buffer[..20],
        [0x45, 0, 0, 46, 0, 0, 0, 0, 0, 0, 0xba, 0xd1, 0, 0, 0, 0, 0, 0, 0, 0]
    );
    assert_eq!(buffer[20..28], [1; 8]);
    assert_eq!(buffer[28..44], [2; 16]);
    assert_eq!(buffer[44..46], [3; 2]);
    assert_eq!(buffer[46..], [0xee; 4]);
}

#[test]
fn test_reassemble_packet_helper_v6() {
    let header = vec![0x11u8; 48];
    let fragments =
        vec![PacketBodyFragment::new(0, vec![1; 256]), PacketBodyFragment::new(32, vec![2; 5])];
    let mut buffer = vec![0xee; 309];
    let result = reassemble_packet_helper(&mut buffer, IpVersion::V6, header, fragments);
    assert_eq!(result, Ok(309));
    // What follows the fixed header has 269 bytes: 0x010d.
    assert_eq!(buffer[..8], [0x11, 0x11, 0x11, 0x11, 0x01, 0x0d, 0x11, 0x11]);
    assert_eq!(buffer[8..48], [0x11; 40]);
    assert_eq!(buffer[48..304], [1; 256]);
    assert_eq!(buffer[304..], [2; 5]);
}

#[test]
fn test_reassemble_packet_helper_too_long() {
    let fragments = vec![PacketBodyFragment::new(0, vec![1; 65516])];
    let mut buffer = vec![0xee; 65536];
    let result = reassemble_packet_helper(&mut buffer, IpVersion::V4, vec![7u8; 20], fragments);
    assert_eq!(result, Err(FragmentReassemblyError::PacketParsingError));
    assert_eq!(buffer[..20], [7; 20]);
    assert_eq!(buffer[20], 1);

    let fragments = vec![PacketBodyFragment::new(0, vec![1; 65536])];
    let mut buffer = vec![0xee; 65576];
    let result = reassemble_packet_helper(&mut buffer, IpVersion::V6, vec![7u8; 40], fragments);
    assert_eq!(result, Err(FragmentReassemblyError::PacketParsingError));
    assert_eq!(buffer[..40], [7; 40]);
}
