use tiny_rust::x11::{
    atom_of_reply, classify_event, create_window_request, get_u16_le, get_u32_le, intern_atom_request,
    map_window_request, pad4, parse_setup, set_protocols_request, set_title_request, setup_extra_len,
    setup_request, X11Event,
};

#[test]
fn setup() {
    assert_eq!(setup_request(), vec![b'l', 0, 11, 0, 0, 0, 0, 0, 0, 0, 0, 0]);
    assert_eq!(setup_extra_len(&[1, 0, 11, 0, 0, 0, 3, 1]), Some(259 * 4));
    assert_eq!(setup_extra_len(&[0, 0, 11, 0, 0, 0, 3, 1]), None);
    assert_eq!(pad4(5), 8);
    assert_eq!(pad4(8), 8);
    assert_eq!(pad4(0), 0);
}

#[test]
fn screen_fields() {
    let mut d = vec![0u8; 4096];
    d[4..8].copy_from_slice(&0x0420_0000u32.to_le_bytes());
    d[16..18].copy_from_slice(&5u16.to_le_bytes());
    d[21] = 2;
    let so = 32 + 8 + 16;
    d[so..so + 4].copy_from_slice(&0x0000_0123u32.to_le_bytes());
    d[so + 8..so + 12].copy_from_slice(&0x00ff_ffffu32.to_le_bytes());
    d[so + 32..so + 36].copy_from_slice(&0x21u32.to_le_bytes());
    d[so + 38] = 24;
    let s = parse_setup(&d).unwrap();
    assert_eq!(s.resource_id_base, 0x0420_0000);
    assert_eq!(s.root_window, 0x123);
    assert_eq!(s.white_pixel, 0xff_ffff);
    assert_eq!(s.root_visual, 0x21);
    assert_eq!(s.root_depth, 24);
    assert!(parse_setup(&d[..so + 38]).is_none());
    assert_eq!(get_u16_le(&d, 16), 5);
    assert_eq!(get_u32_le(&d, so), 0x123);
}

#[test]
fn requests() {
    let r = intern_atom_request(b"WM_PROTOCOLS");
    assert_eq!(r.len(), 20);
    assert_eq!(&r[..8], &[16, 0, 5, 0, 12, 0, 0, 0]);
    assert_eq!(&r[8..], b"WM_PROTOCOLS");
    let r = intern_atom_request(b"WM_DELETE_WINDOW");
    assert_eq!(r.len(), 24);
    assert_eq!(&r[..4], &[16, 0, 6, 0]);
    let cw = create_window_request(0x0420_0000, 0x123, 24, 0x21, 0xffffff);
    assert_eq!(cw.len(), 40);
    assert_eq!(&cw[..4], &[1, 24, 10, 0]);
    assert_eq!(&cw[16..20], &[0x90, 0x01, 0x2c, 0x01]);
    assert_eq!(&cw[28..32], &[0x02, 0x08, 0, 0]);
    assert_eq!(&cw[36..40], &[0x01, 0x80, 0x02, 0x00]);
    let t = set_title_request(7, b"tiny-x11");
    assert_eq!(t.len(), 32);
    assert_eq!(&t[..4], &[18, 0, 8, 0]);
    assert_eq!(&t[24..], b"tiny-x11");
    let p = set_protocols_request(7, 300, 301);
    assert_eq!(p.len(), 28);
    assert_eq!(&p[24..28], &301u32.to_le_bytes());
    assert_eq!(map_window_request(7), vec![8, 0, 2, 0, 7, 0, 0, 0]);
}

#[test]
fn events() {
    let mut e = [0u8; 32];
    e[0] = 12;
    assert!(classify_event(&e, 301) == X11Event::Expose);
    e[0] = 2 | 0x80;
    assert!(classify_event(&e, 301) == X11Event::KeyPress);
    e[0] = 33;
    e[12..16].copy_from_slice(&301u32.to_le_bytes());
    assert!(classify_event(&e, 301) == X11Event::Close);
    assert!(classify_event(&e, 302) == X11Event::Other);
    e[0] = 22;
    assert!(classify_event(&e, 301) == X11Event::Other);
    let mut reply = [0u8; 32];
    reply[8..12].copy_from_slice(&0x1234u32.to_le_bytes());
    assert_eq!(atom_of_reply(&reply), 0x1234);
}
