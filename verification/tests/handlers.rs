use tango_bridge::handlers::{
    device_target, ios_h264_handler, ios_h264_worker_handler, ios_stream_eco_handler, ios_stream_handler,
    ios_zxtouch_handler,
};

fn ip() -> Option<String> {
    Some("192.168.1.7".to_string())
}

#[test]
fn each_request_has_its_port() {
    assert_eq!(ios_stream_handler(ip()).unwrap().address(), "192.168.1.7:7001");
    assert_eq!(ios_stream_eco_handler(ip()).unwrap().address(), "192.168.1.7:7002");
    assert_eq!(ios_h264_handler(ip()).unwrap().address(), "192.168.1.7:7003");
    assert_eq!(ios_h264_worker_handler(ip()).unwrap().address(), "192.168.1.7:7004");
    assert_eq!(ios_zxtouch_handler(ip()).unwrap().address(), "192.168.1.7:6000");
    assert_eq!(device_target(ip(), 0).unwrap().address(), "192.168.1.7:0");
    assert_eq!(device_target(ip(), 65535).unwrap().address(), "192.168.1.7:65535");
}

#[test]
fn device_that_is_not_there_is_not_found() {
    for refusal in [
        ios_stream_handler(None),
        ios_stream_eco_handler(None),
        ios_h264_handler(None),
        ios_h264_worker_handler(None),
        ios_zxtouch_handler(None),
        device_target(None, 1),
    ] {
        let e = refusal.unwrap_err();
        assert_eq!(e.status, 404);
        assert_eq!(e.message, "device not found");
    }
}
